//! The mathematical notions that the contracts of this crate speak of.

pub mod divisors;
pub mod factorization;
pub mod fibonacci;
pub mod powers;
pub mod primes;

use vstd::arithmetic::power::pow;
use vstd::prelude::*;

verus! {

/// `d` divides `n`.
pub open spec fn divides(d: nat, n: nat) -> bool {
    d != 0 && n % d == 0
}

/// `p` is a prime number.
pub open spec fn is_prime(p: nat) -> bool {
    p >= 2 && forall|d: nat| 1 < d < p ==> !#[trigger] divides(d, p)
}

/// `r` squared.
pub open spec fn square(r: nat) -> nat {
    r * r
}

/// `n` is the square of a natural number.
pub open spec fn is_perfect_square(n: nat) -> bool {
    exists|r: nat| #[trigger] square(r) == n
}

/// `n` is `x` to the `y` for some `x > 1`, `y > 1`.
pub open spec fn is_perfect_power(n: nat) -> bool {
    exists|x: nat, y: nat| x > 1 && y > 1 && #[trigger] pow(x as int, y) == n
}

/// `n` is `x` to the `y` for some `x`.
pub open spec fn is_power_with_exponent(n: nat, y: nat) -> bool {
    exists|x: nat| #[trigger] pow(x as int, y) == n
}

/// The `k`-th Fibonacci number: 0, 1, 1, 2, 3, 5, ...
pub open spec fn fib(k: nat) -> nat
    decreases k,
{
    if k == 0 {
        0
    } else if k == 1 {
        1
    } else {
        fib((k - 1) as nat) + fib((k - 2) as nat)
    }
}

/// `n` is a Fibonacci number.
pub open spec fn is_fibonacci(n: nat) -> bool {
    exists|k: nat| #[trigger] fib(k) == n
}

/// The `k`-th triangular number, `0 + 1 + ... + k`.
pub open spec fn triangle(k: nat) -> nat {
    k * (k + 1) / 2
}

/// `n` is a triangular number.
pub open spec fn is_triangular(n: nat) -> bool {
    exists|k: nat| #[trigger] triangle(k) == n
}

/// The number of one bits in the binary form of `n`.
pub open spec fn popcount(n: nat) -> nat
    decreases n,
{
    if n == 0 {
        0
    } else {
        n % 2 + popcount(n / 2)
    }
}

} // verus!
