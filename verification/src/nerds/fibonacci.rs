//! Fibonacci numbers: 0, 1, 1, 2, 3, 5, 8, ...

use crate::gmp;
use crate::math::{fib, is_fibonacci, is_perfect_square, square};
use crate::math::fibonacci::{
    lemma_fib_doubling, lemma_fib_increases, lemma_fib_index_unique, lemma_fib_strictly_increases,
    lemma_square_test_complete, lemma_square_test_sound,
};
use crate::natural::Natural;
use crate::nerds::{Fact, FactText};
use crate::text::decimal;
use vstd::prelude::*;
use vstd::string::StringExecFns;

verus! {

/// The index of the Fibonacci number `n`; that of the one is 1, not 2.
pub open spec fn fibonacci_index(n: nat) -> nat {
    choose|k: nat| fib(k) == n && k != 2
}

/// What is said of `n` as a Fibonacci number.
pub open spec fn fibonacci_facts(n: nat) -> Seq<FactText> {
    if is_fibonacci(n) {
        seq![
            FactText::Basic("Is the (#"@ + decimal(fibonacci_index(n)) + ")th fibonacci number."@),
        ]
    } else {
        Seq::empty()
    }
}

/// Every Fibonacci number is known as one, and by its index: that of the
/// `k`-th is `k`, but for the second, which is the first too.
pub proof fn lemma_fibonacci_found_again(k: nat)
    ensures
        is_fibonacci(fib(k)),
        k != 2 ==> fibonacci_index(fib(k)) == k,
        k == 2 ==> fibonacci_index(fib(k)) == 1,
{
    reveal_with_fuel(fib, 3);
    let first: nat = if k == 2 { 1 } else { k };
    assert(fib(first) == fib(k));
    lemma_fib_index_unique(fibonacci_index(fib(k)), first);
}

/// Whether `n` is a Fibonacci number: `x` is one if and only if either
/// `5 x^2 + 4` or `5 x^2 - 4` is a perfect square.
pub fn is_fib(n: &Natural) -> (r: bool)
    ensures
        r == is_fibonacci(n@),
{
    let five = Natural::from_u32(5);
    let four = Natural::from_u32(4);
    let test = gmp::mul(&gmp::mul(n, n), &five);
    let above = gmp::perfect_square(&gmp::add(&test, &four));
    let below = if n.is_zero() {
        // Five times zero squared, less four, is below zero and no square.
        false
    } else {
        assert(test@ >= 4) by (nonlinear_arith)
            requires
                test@ == n@ * n@ * 5,
                n@ >= 1,
        ;
        gmp::perfect_square(&gmp::sub(&test, &four))
    };
    proof {
        let x = n@;
        assert(test@ == 5 * x * x) by (nonlinear_arith)
            requires
                test@ == x * x * 5,
        ;
        if above {
            let y = choose|y: nat| #[trigger] square(y) == test@ + 4;
            lemma_square_test_sound(x, y);
        }
        if below {
            let y = choose|y: nat| #[trigger] square(y) == (test@ - 4) as nat;
            lemma_square_test_sound(x, y);
        }
        if is_fibonacci(x) {
            let k = choose|k: nat| #[trigger] fib(k) == x;
            lemma_square_test_complete(k);
            if !is_perfect_square(test@ + 4) {
                assert(x != 0) by (nonlinear_arith)
                    requires
                        5 * x * x >= 4,
                ;
            }
        }
    }
    above || below
}

/// The index of `n` among the Fibonacci numbers up to the 32nd, if it is one
/// of them.
fn small_fib_index(n: u32) -> (r: Option<u8>)
    ensures
        match r {
            Some(i) => i <= 32 && i != 2 && fib(i as nat) == n,
            None => forall|k: nat| k <= 32 ==> fib(k) != n,
        },
{
    let mut a: u64 = 0;
    let mut b: u64 = 1;
    let mut i: u8 = 0;
    while i <= 32
        invariant
            i <= 33,
            a == fib(i as nat),
            b == fib((i + 1) as nat),
            forall|k: nat| k < i ==> fib(k) != n,
        decreases 33 - i,
    {
        if a == n as u64 {
            proof {
                reveal_with_fuel(fib, 3);
                assert(fib(1) == 1 && fib(2) == 1);
            }
            return Some(i);
        }
        proof {
            lemma_fib_below_power((i + 2) as nat);
            vstd::arithmetic::power2::lemma2_to64();
            vstd::arithmetic::power2::lemma2_to64_rest();
            if i < 32 {
                vstd::arithmetic::power2::lemma_pow2_strictly_increases((i + 1) as nat, 33);
            }
        }
        let next = a + b;
        a = b;
        b = next;
        i += 1;
    }
    None
}

/// The index of the Fibonacci number `n`: the `k` with `fib(k) = n`, and of
/// two such the first.
pub fn fib_index(n: &Natural) -> (idx: Natural)
    requires
        is_fibonacci(n@),
    ensures
        fib(idx@) == n@,
        idx@ != 2,
{
    let ghost goal = fibonacci_index(n@);
    proof {
        let k = choose|k: nat| #[trigger] fib(k) == n@;
        reveal_with_fuel(fib, 3);
        assert(fib(if k == 2 { 1 } else { k }) == n@);
    }
    match n.to_u32() {
        Some(small) => {
            match small_fib_index(small) {
                Some(i) => {
                    return Natural::from_u32(i as u32);
                },
                None => {},
            }
        },
        None => {},
    }
    proof {
        // What is not in the table comes after it.
        if goal <= 32 {
            lemma_fib_increases(goal, 32);
            assert(fib(32) <= 0x8000_0000) by {
                lemma_fib_below_power(32);
                vstd::arithmetic::power2::lemma2_to64();
            }
        }
    }
    let one = Natural::from_u32(1);
    let two = Natural::from_u32(2);
    let mut idx = Natural::from_u32(32);
    let mut a = gmp::fibonacci(64);  // fib(2 * idx)
    let mut b = gmp::fibonacci(65);  // fib(2 * idx + 1)
    let mut a_prev = gmp::fibonacci(32);  // fib(idx)
    let mut b_prev = gmp::fibonacci(33);  // fib(idx + 1)

    // double idx until fib(2 * idx) overshoots n
    while gmp::is_less(&a, n)
        invariant
            one@ == 1,
            two@ == 2,
            32 <= idx@ < goal,
            fib(goal) == n@,
            a@ == fib(2 * idx@),
            b@ == fib(2 * idx@ + 1),
            a_prev@ == fib(idx@),
            b_prev@ == fib(idx@ + 1),
        decreases goal - idx@,
    {
        proof {
            let m = 2 * idx@;
            lemma_fib_doubling(m);
            if goal <= m {
                lemma_fib_increases(goal, m);
            }
            assert(2 * m == 2 * (idx@ * 2));
        }
        a_prev = a;
        b_prev = b;
        a = gmp::mul(&gmp::sub(&gmp::mul(&b_prev, &two), &a_prev), &a_prev);
        b = gmp::add(&gmp::mul(&a_prev, &a_prev), &gmp::mul(&b_prev, &b_prev));
        idx = gmp::mul(&idx, &two);
        proof {
            let x = a_prev@;
            let y = b_prev@;
            assert((y * 2 - x) * x == x * (2 * y - x)) by (nonlinear_arith)
                requires
                    y * 2 >= x,
            ;
        }
    }

    // take a step back
    a = a_prev;
    b = b_prev;

    // increment idx until fib(idx) >= n
    while gmp::is_less(&a, n)
        invariant
            one@ == 1,
            32 <= idx@ <= goal,
            fib(goal) == n@,
            a@ == fib(idx@),
            b@ == fib(idx@ + 1),
        decreases goal - idx@,
    {
        proof {
            if goal <= idx@ {
                lemma_fib_increases(goal, idx@);
            }
            assert(fib(idx@ + 2) == fib(idx@ + 1) + fib(idx@));
        }
        let next = gmp::add(&a, &b);
        a = b;
        b = next;
        idx = gmp::add(&idx, &one);
    }
    proof {
        if idx@ < goal {
            lemma_fib_strictly_increases(idx@, goal);
        }
    }
    idx
}

/// The `k`-th Fibonacci number is no more than two to the `k - 1`.
proof fn lemma_fib_below_power(k: nat)
    requires
        k >= 1,
    ensures
        fib(k) <= vstd::arithmetic::power2::pow2((k - 1) as nat),
    decreases k,
{
    vstd::arithmetic::power2::lemma2_to64();
    reveal_with_fuel(fib, 3);
    if k >= 3 {
        lemma_fib_below_power((k - 1) as nat);
        lemma_fib_below_power((k - 2) as nat);
        vstd::arithmetic::power2::lemma_pow2_unfold((k - 1) as nat);
        vstd::arithmetic::power2::lemma_pow2_unfold((k - 2) as nat);
    }
}

/// Says which Fibonacci number `n` is, if it is one.
pub fn fibonacci(n: &Natural) -> (facts: Vec<Fact>)
    ensures
        facts.deep_view() == fibonacci_facts(n@),
{
    let mut facts: Vec<Fact> = Vec::new();
    if is_fib(n) {
        let idx = fib_index(n);
        let mut text = String::from_str("Is the (#");
        text.append(gmp::to_decimal(&idx).as_str());
        text.append(")th fibonacci number.");
        facts.push(Fact::Basic(text));
        proof {
            lemma_fib_index_unique(idx@, fibonacci_index(n@));
        }
    }
    assert(facts.deep_view() =~= fibonacci_facts(n@));
    facts
}

} // verus!
