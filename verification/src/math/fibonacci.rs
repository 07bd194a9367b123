//! The Fibonacci numbers: their growth, the doubling formulas, and the test
//! by squares.

use crate::math::{fib, is_fibonacci, is_perfect_square, square};
use vstd::prelude::*;

verus! {

/// The Fibonacci numbers do not fall.
pub proof fn lemma_fib_increases(i: nat, j: nat)
    requires
        i <= j,
    ensures
        fib(i) <= fib(j),
    decreases j,
{
    if i < j {
        lemma_fib_increases(i, (j - 1) as nat);
        if j >= 2 {
            assert(fib(j) == fib((j - 1) as nat) + fib((j - 2) as nat));
        }
    }
}

/// From the second on, the Fibonacci numbers rise.
pub proof fn lemma_fib_strictly_increases(i: nat, j: nat)
    requires
        2 <= i < j,
    ensures
        fib(i) < fib(j),
    decreases j,
{
    lemma_fib_positive((j - 2) as nat);
    if i < j - 1 {
        lemma_fib_strictly_increases(i, (j - 1) as nat);
    }
}

/// All Fibonacci numbers but the zeroth are positive.
pub proof fn lemma_fib_positive(k: nat)
    ensures
        k >= 1 ==> fib(k) >= 1,
        k == 0 ==> fib(k) == 0,
{
    if k >= 1 {
        lemma_fib_increases(1, k);
    }
}

/// A Fibonacci number has one index only, but for the one, which is the
/// first and the second.
pub proof fn lemma_fib_index_unique(i: nat, j: nat)
    requires
        fib(i) == fib(j),
        i != 2,
        j != 2,
    ensures
        i == j,
{
    reveal_with_fuel(fib, 4);
    if i < j {
        if i >= 2 {
            lemma_fib_strictly_increases(i, j);
        } else {
            lemma_fib_increases(3, j);
        }
    }
    if j < i {
        if j >= 2 {
            lemma_fib_strictly_increases(j, i);
        } else {
            lemma_fib_increases(3, i);
        }
    }
}

/// The addition formula: `F(m + n + 1) = F(m + 1) F(n + 1) + F(m) F(n)`.
pub proof fn lemma_fib_addition(m: nat, n: nat)
    ensures
        fib(m + n + 1) == fib(m + 1) * fib(n + 1) + fib(m) * fib(n),
    decreases n,
{
    reveal_with_fuel(fib, 3);
    let a = fib(m);
    let b = fib(m + 1);
    if n == 0 {
        assert(b * 1 + a * 0 == b) by (nonlinear_arith);
    } else if n == 1 {
        assert(fib(m + 2) == a + b);
        assert(b * 1 + a * 1 == a + b) by (nonlinear_arith);
    } else {
        lemma_fib_addition(m, (n - 1) as nat);
        lemma_fib_addition(m, (n - 2) as nat);
        let x = fib((n - 2) as nat);
        let y = fib((n - 1) as nat);
        assert(fib(n) == x + y);
        assert(fib(n + 1) == fib(n) + y);
        assert(fib(m + n + 1) == fib(m + n) + fib((m + n - 1) as nat));
        assert((b * (x + y) + a * y) + (b * y + a * x) == b * ((x + y) + y) + a * (x + y))
            by (nonlinear_arith);
    }
}

/// The doubling formulas: `F(2m) = F(m) (2 F(m + 1) - F(m))` and
/// `F(2m + 1) = F(m)^2 + F(m + 1)^2`.
pub proof fn lemma_fib_doubling(m: nat)
    ensures
        2 * fib(m + 1) >= fib(m),
        fib(2 * m) == fib(m) * (2 * fib(m + 1) - fib(m)),
        fib(2 * m + 1) == fib(m) * fib(m) + fib(m + 1) * fib(m + 1),
{
    let a = fib(m);
    let b = fib(m + 1);
    lemma_fib_increases(m, m + 1);
    lemma_fib_addition(m, m);
    assert(b * b + a * a == a * a + b * b);
    if m == 0 {
        assert(a * (2 * b - a) == 0) by (nonlinear_arith)
            requires
                a == 0,
        ;
    } else {
        let c = fib((m - 1) as nat);
        lemma_fib_addition((m - 1) as nat, m);
        assert(b == a + c) by {
            if m >= 2 {
            } else {
                reveal_with_fuel(fib, 3);
            }
        }
        assert(a * b + c * a == a * (2 * b - a)) by (nonlinear_arith)
            requires
                b == a + c,
        ;
    }
}

/// `b^2 - a b - a^2`, which is one or minus one for neighbouring Fibonacci
/// numbers `a`, `b`, and for them only.
pub open spec fn quadratic_form(a: int, b: int) -> int {
    b * b - a * b - a * a
}

/// Cassini's identity in the form `F(k+1)^2 - F(k) F(k+1) - F(k)^2 = (-1)^k`.
pub proof fn lemma_fib_quadratic_form(k: nat)
    ensures
        quadratic_form(fib(k) as int, fib(k + 1) as int) == if k % 2 == 0 {
            1int
        } else {
            -1int
        },
    decreases k,
{
    reveal_with_fuel(fib, 3);
    if k == 0 {
        assert(quadratic_form(0, 1) == 1) by (nonlinear_arith);
    } else {
        lemma_fib_quadratic_form((k - 1) as nat);
        let a = fib((k - 1) as nat) as int;
        let b = fib(k) as int;
        assert(fib(((k - 1) as nat) + 1) == b);
        assert(fib(k + 1) == a + b);
        assert(quadratic_form(b, a + b) == -quadratic_form(a, b)) by (nonlinear_arith);
    }
}

/// Numbers `a <= b` for which `b^2 - a b - a^2` is one or minus one are
/// neighbouring Fibonacci numbers.
pub proof fn lemma_quadratic_form_fibonacci(a: nat, b: nat) -> (k: nat)
    requires
        a <= b,
        quadratic_form(a as int, b as int) == 1 || quadratic_form(a as int, b as int) == -1,
    ensures
        fib(k) == a,
        fib(k + 1) == b,
    decreases a + b,
{
    reveal_with_fuel(fib, 3);
    if a == 0 {
        assert(b == 1) by (nonlinear_arith)
            requires
                b * b - 0 * b - 0 * 0 == 1 || b * b - 0 * b - 0 * 0 == -1,
        ;
        0
    } else {
        // Step down to the pair before: (b - a, a).
        assert(b <= 2 * a) by (nonlinear_arith)
            requires
                a >= 1,
                b * b - a * b - a * a <= 1,
        ;
        let c = (b - a) as nat;
        assert(quadratic_form(c as int, a as int) == -quadratic_form(a as int, b as int))
            by (nonlinear_arith)
            requires
                c == b - a,
        ;
        let j = lemma_quadratic_form_fibonacci(c, a);
        assert(fib(j + 2) == fib(j + 1) + fib(j));
        j + 1
    }
}

/// A square is even where its root is.
pub proof fn lemma_square_parity(y: nat)
    ensures
        (y * y) % 2 == y % 2,
{
    let j = y / 2;
    if y % 2 == 0 {
        assert(y * y == 2 * (j * y)) by (nonlinear_arith)
            requires
                y == 2 * j,
        ;
    } else {
        assert(y * y == 2 * (j * y + j) + 1) by (nonlinear_arith)
            requires
                y == 2 * j + 1,
        ;
    }
}

/// A number `x` for which `5 x^2 + 4` or `5 x^2 - 4` is the square of `y` is
/// a Fibonacci number.
pub proof fn lemma_square_test_sound(x: nat, y: nat)
    requires
        y * y == 5 * x * x + 4 || y * y == 5 * x * x - 4,
    ensures
        is_fibonacci(x),
{
    lemma_square_parity(y);
    lemma_square_parity(x);
    let xx = x * x;
    let yy = y * y;
    assert(yy == 5 * xx + 4 || yy == 5 * xx - 4) by (nonlinear_arith)
        requires
            y * y == 5 * x * x + 4 || y * y == 5 * x * x - 4,
            xx == x * x,
            yy == y * y,
    ;
    assert(y % 2 == x % 2);
    assert(x <= y) by (nonlinear_arith)
        requires
            y * y == 5 * (x * x) + 4 || y * y == 5 * (x * x) - 4,
    ;
    let b = (x + y) / 2;
    assert(2 * b == x + y);
    assert(4 * quadratic_form(x as int, b as int) == y * y - 5 * (x * x)) by (nonlinear_arith)
        requires
            2 * b == x + y,
    ;
    let k = lemma_quadratic_form_fibonacci(x, b);
    assert(fib(k) == x);
}

/// For a Fibonacci number `x`, `5 x^2 + 4` or `5 x^2 - 4` is a square.
pub proof fn lemma_square_test_complete(k: nat)
    ensures
        is_perfect_square(5 * fib(k) * fib(k) + 4) || (5 * fib(k) * fib(k) >= 4
            && is_perfect_square((5 * fib(k) * fib(k) - 4) as nat)),
{
    let a = fib(k);
    let b = fib(k + 1);
    lemma_fib_quadratic_form(k);
    lemma_fib_increases(k, k + 1);
    let y = (2 * b - a) as nat;
    assert(y * y == 5 * a * a + 4 * quadratic_form(a as int, b as int)) by (nonlinear_arith)
        requires
            y == 2 * b - a,
    ;
    assert(square(y) == y * y);
}

} // verus!
