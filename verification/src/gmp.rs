//! Arithmetic on [`Natural`] done by GMP, through the `rug` crate.
//!
//! Every function here is trusted: its body turns the limbs into a
//! `rug::Integer` with `Integer::assign_digits`, makes one call, and turns
//! what comes back into limbs with `Integer::to_digits`, which leaves no zero
//! digit at the top, as a [`Natural`] must have it. Its contract is what rug
//! documents of that call. Nothing in this file is proved. GMP ends the
//! process when it cannot allocate, as allocation failure does elsewhere; the
//! contracts speak of the calls that return.

use crate::math::{fib, is_perfect_square, is_prime, popcount};
use crate::natural::{parsed_integer, Natural};
use crate::text::radix_digits;
use rug::integer::{IsPrime, Order};
use rug::Integer;
use vstd::arithmetic::power2::pow2;
use vstd::arithmetic::power::pow;
use vstd::prelude::*;

verus! {

/// What a probabilistic primality test says of a number.
#[derive(Clone, Copy, Debug, PartialEq, Eq)]
pub enum PrimeVerdict {
    /// Definitely not a prime.
    No,
    /// Probably a prime.
    Probably,
    /// Definitely a prime.
    Yes,
}

/// The answer of GMP's primality test `mpz_probab_prime_p` on `n` with `reps`
/// repetitions: trial divisions, a Baillie-PSW test and Miller-Rabin rounds
/// whose bases come from a generator that every call seeds alike.
pub uninterp spec fn probable_prime_verdict(n: nat, reps: u32) -> PrimeVerdict;

/// Sum, by `Integer + Integer`.
#[verifier::external_body]
pub(crate) fn add(a: &Natural, b: &Natural) -> (r: Natural)
    ensures
        r@ == a@ + b@,
{
    let mut x = Integer::new();
    x.assign_digits(&a.limbs, Order::Lsf);
    let mut y = Integer::new();
    y.assign_digits(&b.limbs, Order::Lsf);
    Natural { limbs: (x + y).to_digits(Order::Lsf) }
}

/// Difference, by `Integer - Integer`, where it is not negative.
#[verifier::external_body]
pub(crate) fn sub(a: &Natural, b: &Natural) -> (r: Natural)
    requires
        a@ >= b@,
    ensures
        r@ == a@ - b@,
{
    let mut x = Integer::new();
    x.assign_digits(&a.limbs, Order::Lsf);
    let mut y = Integer::new();
    y.assign_digits(&b.limbs, Order::Lsf);
    Natural { limbs: (x - y).to_digits(Order::Lsf) }
}

/// Product, by `Integer * Integer`.
#[verifier::external_body]
pub(crate) fn mul(a: &Natural, b: &Natural) -> (r: Natural)
    ensures
        r@ == a@ * b@,
{
    let mut x = Integer::new();
    x.assign_digits(&a.limbs, Order::Lsf);
    let mut y = Integer::new();
    y.assign_digits(&b.limbs, Order::Lsf);
    Natural { limbs: (x * y).to_digits(Order::Lsf) }
}

/// Quotient and remainder, by `Integer::div_rem`, which panics on a zero
/// divisor.
#[verifier::external_body]
pub(crate) fn div_rem(a: &Natural, b: &Natural) -> (r: (Natural, Natural))
    requires
        b@ > 0,
    ensures
        r.0@ == a@ / b@,
        r.1@ == a@ % b@,
{
    let mut x = Integer::new();
    x.assign_digits(&a.limbs, Order::Lsf);
    let mut y = Integer::new();
    y.assign_digits(&b.limbs, Order::Lsf);
    let (q, m) = x.div_rem(y);
    (Natural { limbs: q.to_digits(Order::Lsf) }, Natural { limbs: m.to_digits(Order::Lsf) })
}

/// Whether `a < b`, by the `PartialOrd` of `Integer`.
#[verifier::external_body]
pub(crate) fn is_less(a: &Natural, b: &Natural) -> (r: bool)
    ensures
        r == (a@ < b@),
{
    let mut x = Integer::new();
    x.assign_digits(&a.limbs, Order::Lsf);
    let mut y = Integer::new();
    y.assign_digits(&b.limbs, Order::Lsf);
    x < y
}

/// The truncated square root and what is left over, by `Integer::sqrt_rem`.
#[verifier::external_body]
pub(crate) fn sqrt_rem(a: &Natural) -> (r: (Natural, Natural))
    ensures
        r.0@ * r.0@ <= a@ < (r.0@ + 1) * (r.0@ + 1),
        r.1@ == a@ - r.0@ * r.0@,
{
    let mut x = Integer::new();
    x.assign_digits(&a.limbs, Order::Lsf);
    let (root, rem) = x.sqrt_rem(Integer::new());
    (Natural { limbs: root.to_digits(Order::Lsf) }, Natural { limbs: rem.to_digits(Order::Lsf) })
}

/// The truncated `n`-th root and what is left over, by `Integer::root_rem`,
/// which panics where `n` is zero.
#[verifier::external_body]
pub(crate) fn root_rem(a: &Natural, n: u32) -> (r: (Natural, Natural))
    requires
        n >= 1,
    ensures
        pow(r.0@ as int, n as nat) <= a@ < pow(r.0@ as int + 1, n as nat),
        r.1@ == a@ - pow(r.0@ as int, n as nat),
{
    let mut x = Integer::new();
    x.assign_digits(&a.limbs, Order::Lsf);
    let (root, rem) = x.root_rem(Integer::new(), n);
    (Natural { limbs: root.to_digits(Order::Lsf) }, Natural { limbs: rem.to_digits(Order::Lsf) })
}

/// Whether `a` is a perfect square, by `Integer::is_perfect_square`.
#[verifier::external_body]
pub(crate) fn perfect_square(a: &Natural) -> (r: bool)
    ensures
        r == is_perfect_square(a@),
{
    let mut x = Integer::new();
    x.assign_digits(&a.limbs, Order::Lsf);
    x.is_perfect_square()
}

/// Whether `d` divides `a`, by `Integer::is_divisible_u`.
#[verifier::external_body]
pub(crate) fn is_divisible_u32(a: &Natural, d: u32) -> (r: bool)
    requires
        d > 0,
    ensures
        r == (a@ % (d as nat) == 0),
{
    let mut x = Integer::new();
    x.assign_digits(&a.limbs, Order::Lsf);
    x.is_divisible_u(d)
}

/// `a / d` where `d` divides `a`, by `Integer::div_exact_u`, which panics on
/// a zero divisor and is right only where the division is exact.
#[verifier::external_body]
pub(crate) fn div_exact_u32(a: &Natural, d: u32) -> (r: Natural)
    requires
        d > 0,
        a@ % (d as nat) == 0,
    ensures
        r@ == a@ / (d as nat),
{
    let mut x = Integer::new();
    x.assign_digits(&a.limbs, Order::Lsf);
    Natural { limbs: x.div_exact_u(d).to_digits(Order::Lsf) }
}

/// `base` to the `exponent`, by `Integer::u_pow_u`.
#[verifier::external_body]
pub(crate) fn u32_pow(base: u32, exponent: u32) -> (r: Natural)
    ensures
        r@ == pow(base as int, exponent as nat),
{
    Natural { limbs: Integer::from(Integer::u_pow_u(base, exponent)).to_digits(Order::Lsf) }
}

/// The number of bits of `a`, by `Integer::significant_bits`, which panics
/// where the count is over `u32::MAX`.
#[verifier::external_body]
pub(crate) fn significant_bits(a: &Natural) -> (r: u32)
    requires
        a@ < pow2(u32::MAX as nat),
    ensures
        a@ == 0 ==> r == 0,
        a@ > 0 ==> pow2((r - 1) as nat) <= a@ < pow2(r as nat),
{
    let mut x = Integer::new();
    x.assign_digits(&a.limbs, Order::Lsf);
    x.significant_bits()
}

/// The number of one bits of `a`, by `Integer::count_ones`, which panics
/// where the count is over `u32::MAX`.
#[verifier::external_body]
pub(crate) fn count_ones(a: &Natural) -> (r: Option<u32>)
    requires
        a@ < pow2(u32::MAX as nat),
    ensures
        r is Some,
        r->0 == popcount(a@),
{
    let mut x = Integer::new();
    x.assign_digits(&a.limbs, Order::Lsf);
    x.count_ones()
}

/// Whether `a` is a power of two, by `Integer::is_power_of_two`.
#[verifier::external_body]
pub(crate) fn is_power_of_two(a: &Natural) -> (r: bool)
    ensures
        r == (exists|e: nat| #[trigger] pow2(e) == a@),
{
    let mut x = Integer::new();
    x.assign_digits(&a.limbs, Order::Lsf);
    x.is_power_of_two()
}

/// GMP's primality test, by `Integer::is_probably_prime`, which panics where
/// `reps` is over `i32::MAX`. A `Yes` or a `No` is certain.
#[verifier::external_body]
pub(crate) fn is_probably_prime(a: &Natural, reps: u32) -> (r: PrimeVerdict)
    requires
        reps <= i32::MAX,
    ensures
        r == probable_prime_verdict(a@, reps),
        r is Yes ==> is_prime(a@),
        r is No ==> !is_prime(a@),
{
    let mut x = Integer::new();
    x.assign_digits(&a.limbs, Order::Lsf);
    match x.is_probably_prime(reps) {
        IsPrime::No => PrimeVerdict::No,
        IsPrime::Probably => PrimeVerdict::Probably,
        IsPrime::Yes => PrimeVerdict::Yes,
    }
}

/// The `k`-th Fibonacci number, by `Integer::fibonacci`.
#[verifier::external_body]
pub(crate) fn fibonacci(k: u32) -> (r: Natural)
    ensures
        r@ == fib(k as nat),
{
    Natural { limbs: Integer::from(Integer::fibonacci(k)).to_digits(Order::Lsf) }
}

/// `a` in decimal, by the `Display` of `Integer`.
#[verifier::external_body]
pub(crate) fn to_decimal(a: &Natural) -> (r: String)
    ensures
        r@ == radix_digits(a@, 10),
{
    let mut x = Integer::new();
    x.assign_digits(&a.limbs, Order::Lsf);
    format!("{}", x)
}

/// `a` in binary, by the `Binary` of `Integer`.
#[verifier::external_body]
pub(crate) fn to_binary(a: &Natural) -> (r: String)
    ensures
        r@ == radix_digits(a@, 2),
{
    let mut x = Integer::new();
    x.assign_digits(&a.limbs, Order::Lsf);
    format!("{:b}", x)
}

/// `a` in hexadecimal with capital letters, by the `UpperHex` of `Integer`.
#[verifier::external_body]
pub(crate) fn to_upper_hex(a: &Natural) -> (r: String)
    ensures
        r@ == radix_digits(a@, 16),
{
    let mut x = Integer::new();
    x.assign_digits(&a.limbs, Order::Lsf);
    format!("{:X}", x)
}

/// Reads a decimal integer, by `Integer::parse`: the sign (true where the
/// number is below zero) and the absolute value, or nothing where the text
/// is refused. The text can start with a minus or plus sign; ASCII
/// whitespace is ignored everywhere, and so are underscores but before the
/// first digit.
#[verifier::external_body]
pub(crate) fn parse(text: &str) -> (r: Option<(bool, Natural)>)
    ensures
        match r {
            Some((negative, magnitude)) => parsed_integer(text@) == Some(
                if negative {
                    -(magnitude@ as int)
                } else {
                    magnitude@ as int
                },
            ) && (negative ==> magnitude@ > 0),
            None => parsed_integer(text@) is None,
        },
{
    match Integer::parse(text) {
        Ok(digits) => {
            let x = Integer::from(digits);
            Some((x < 0, Natural { limbs: x.to_digits(Order::Lsf) }))
        },
        Err(_) => None,
    }
}

} // verus!
