//! Triangular numbers: 0, 1, 3, 6, 10, ...

use crate::gmp;
use crate::math::{is_triangular, triangle};
use crate::natural::Natural;
use crate::nerds::{Fact, FactText};
use crate::text::decimal;
use vstd::prelude::*;
use vstd::string::StringExecFns;

verus! {

/// The index of the triangular number `n`.
pub open spec fn triangular_index(n: nat) -> nat {
    choose|k: nat| triangle(k) == n
}

/// What is said of `n` as a triangular number.
pub open spec fn triangular_facts(n: nat) -> Seq<FactText> {
    if is_triangular(n) {
        seq![
            FactText::Basic(
                "Is the (#"@ + decimal(triangular_index(n)) + ")th triangular number."@,
            ),
        ]
    } else {
        Seq::empty()
    }
}

/// Twice a triangular number is the product of its index and the next number.
pub proof fn lemma_triangle_doubled(k: nat)
    ensures
        2 * triangle(k) == k * (k + 1),
{
    let j = k / 2;
    if k % 2 == 0 {
        assert(k * (k + 1) == 2 * (j * (k + 1))) by (nonlinear_arith)
            requires
                k == 2 * j,
        ;
    } else {
        assert(k * (k + 1) == 2 * (k * (j + 1))) by (nonlinear_arith)
            requires
                k == 2 * j + 1,
        ;
    }
}

/// The triangular numbers grow with their index.
pub proof fn lemma_triangle_increases(j: nat, k: nat)
    requires
        j < k,
    ensures
        triangle(j) < triangle(k),
{
    lemma_triangle_doubled(j);
    lemma_triangle_doubled(k);
    assert(j * (j + 1) < k * (k + 1)) by (nonlinear_arith)
        requires
            j < k,
    ;
}

/// A number has at most one index as a triangular number.
pub proof fn lemma_triangular_index_unique(n: nat, k: nat)
    requires
        triangle(k) == n,
    ensures
        is_triangular(n),
        triangular_index(n) == k,
{
    let j = triangular_index(n);
    if j < k {
        lemma_triangle_increases(j, k);
    }
    if k < j {
        lemma_triangle_increases(k, j);
    }
}

/// With the truncated root `d` of `8 n + 1` in hand: `n` is triangular
/// exactly where the root is exact, and then the root is odd and half of it,
/// rounded down, is the index of `n`.
pub proof fn lemma_triangular_by_root(n: nat, d: nat)
    requires
        d * d <= 8 * n + 1 < (d + 1) * (d + 1),
    ensures
        is_triangular(n) <==> d * d == 8 * n + 1,
        d * d == 8 * n + 1 ==> d % 2 == 1 && triangle(((d - 1) / 2) as nat) == n,
{
    if is_triangular(n) {
        let k = triangular_index(n);
        lemma_triangle_doubled(k);
        assert(8 * n + 1 == (2 * k + 1) * (2 * k + 1)) by (nonlinear_arith)
            requires
                2 * n == k * (k + 1),
        ;
        assert(d == 2 * k + 1) by (nonlinear_arith)
            requires
                d * d <= (2 * k + 1) * (2 * k + 1),
                (2 * k + 1) * (2 * k + 1) < (d + 1) * (d + 1),
        ;
    }
    if d * d == 8 * n + 1 {
        crate::math::fibonacci::lemma_square_parity(d);
        let k = ((d - 1) / 2) as nat;
        assert(d == 2 * k + 1);
        lemma_triangle_doubled(k);
        assert(k * (k + 1) == 2 * n) by (nonlinear_arith)
            requires
                (2 * k + 1) * (2 * k + 1) == 8 * n + 1,
        ;
    }
}

/// The index of `n` among the triangular numbers, if it is one: `n` is
/// triangular where `8 n + 1` is a square, and its index is then half of
/// the root less one.
pub fn triangular_root(n: &Natural) -> (r: Option<Natural>)
    ensures
        match r {
            Some(k) => triangle(k@) == n@,
            None => !is_triangular(n@),
        },
{
    let eight = Natural::from_u32(8);
    let one = Natural::from_u32(1);
    let two = Natural::from_u32(2);
    let disc_sq = gmp::add(&gmp::mul(n, &eight), &one);
    let (disc, rem) = gmp::sqrt_rem(&disc_sq);
    proof {
        lemma_triangular_by_root(n@, disc@);
    }
    // 8x+1 must be a square, and its root less one must be even.
    if !rem.is_zero() || disc.is_even() {
        return None;
    }
    Some(gmp::div_rem(&gmp::sub(&disc, &one), &two).0)
}

/// Says which triangular number `n` is, if it is one.
pub fn triangular(n: &Natural) -> (facts: Vec<Fact>)
    ensures
        facts.deep_view() == triangular_facts(n@),
{
    let mut facts: Vec<Fact> = Vec::new();
    match triangular_root(n) {
        Some(root) => {
            let mut text = String::from_str("Is the (#");
            text.append(gmp::to_decimal(&root).as_str());
            text.append(")th triangular number.");
            facts.push(Fact::Basic(text));
            proof {
                lemma_triangular_index_unique(n@, root@);
                assert(facts.deep_view() =~= triangular_facts(n@));
            }
        },
        None => {
            assert(facts.deep_view() =~= triangular_facts(n@));
        },
    }
    facts
}

} // verus!
