//! Arbitrary-precision natural numbers as plain data.
//!
//! A [`Natural`] holds its value as base-2^32 limbs, least significant first,
//! with no zero limb at the top. What can be read off the limbs is computed
//! and proved here; arithmetic is done by GMP (see the `gmp` module).

use crate::gmp;
use crate::text::{decimal, decimal_value, is_decimal_digit};
use vstd::arithmetic::power2::{lemma2_to64, lemma_pow2_adds, lemma_pow2_strictly_increases, pow2};
use vstd::prelude::*;

verus! {

/// The limb base, 2^32.
pub const LIMB_BASE: u64 = 0x1_0000_0000;

/// The numbers below two to this power are those whose bits GMP counts in a
/// `u32`, whatever their limbs hold.
pub const BIT_LIMIT: u32 = 0xffff_ffe0;

/// The number that a sequence of limbs stands for, least significant limb first.
pub open spec fn limbs_value(limbs: Seq<u32>) -> nat
    decreases limbs.len(),
{
    if limbs.len() == 0 {
        0
    } else {
        limbs[0] as nat + LIMB_BASE as nat * limbs_value(limbs.drop_first())
    }
}

/// No superfluous zero limb at the most significant end.
pub open spec fn limbs_canonical(limbs: Seq<u32>) -> bool {
    limbs.len() == 0 || limbs.last() != 0
}

/// A sequence of limbs that is worth zero holds only zero limbs.
pub proof fn lemma_zero_value_zero_limbs(limbs: Seq<u32>)
    requires
        limbs_value(limbs) == 0,
    ensures
        forall|i: int| 0 <= i < limbs.len() ==> limbs[i] == 0,
    decreases limbs.len(),
{
    if limbs.len() > 0 {
        let rest = limbs.drop_first();
        assert(limbs_value(rest) == 0) by (nonlinear_arith)
            requires
                limbs[0] as nat + LIMB_BASE * limbs_value(rest) == 0,
                LIMB_BASE > 0,
        ;
        lemma_zero_value_zero_limbs(rest);
        assert forall|i: int| 0 <= i < limbs.len() implies limbs[i] == 0 by {
            if i > 0 {
                assert(limbs[i] == rest[i - 1]);
            }
        }
    }
}

/// A canonical, non-empty sequence of limbs is worth more than zero.
pub proof fn lemma_canonical_positive(limbs: Seq<u32>)
    requires
        limbs_canonical(limbs),
        limbs.len() > 0,
    ensures
        limbs_value(limbs) > 0,
{
    if limbs_value(limbs) == 0 {
        lemma_zero_value_zero_limbs(limbs);
        assert(limbs[limbs.len() - 1] == 0);
    }
}

/// `n` limbs hold a number below 2^(32 n).
pub proof fn lemma_value_upper_bound(limbs: Seq<u32>)
    ensures
        limbs_value(limbs) < pow2(32 * limbs.len()),
    decreases limbs.len(),
{
    lemma2_to64();
    if limbs.len() > 0 {
        let rest = limbs.drop_first();
        lemma_value_upper_bound(rest);
        lemma_pow2_adds(32, 32 * rest.len());
        let r = limbs_value(rest);
        let p = pow2(32 * rest.len());
        assert(limbs[0] as nat + LIMB_BASE * r < LIMB_BASE * p) by (nonlinear_arith)
            requires
                r < p,
                limbs[0] < LIMB_BASE,
        ;
    }
}

/// `n` canonical limbs, `n > 0`, hold a number of at least 2^(32 (n - 1)).
pub proof fn lemma_value_lower_bound(limbs: Seq<u32>)
    requires
        limbs_canonical(limbs),
        limbs.len() > 0,
    ensures
        limbs_value(limbs) >= pow2((32 * (limbs.len() - 1)) as nat),
    decreases limbs.len(),
{
    lemma2_to64();
    let rest = limbs.drop_first();
    if limbs.len() == 1 {
        lemma_canonical_positive(limbs);
    } else {
        assert(rest.last() == limbs.last());
        lemma_value_lower_bound(rest);
        lemma_pow2_adds(32, (32 * (rest.len() - 1)) as nat);
        let r = limbs_value(rest);
        let p = pow2((32 * (rest.len() - 1)) as nat);
        assert(limbs[0] as nat + LIMB_BASE * r >= LIMB_BASE * p) by (nonlinear_arith)
            requires
                r >= p,
        ;
    }
}

/// Canonical limbs that are worth the same are the same.
pub proof fn lemma_canonical_limbs_unique(a: Seq<u32>, b: Seq<u32>)
    requires
        limbs_canonical(a),
        limbs_canonical(b),
        limbs_value(a) == limbs_value(b),
    ensures
        a == b,
    decreases a.len(),
{
    if a.len() == 0 || b.len() == 0 {
        if a.len() > 0 {
            lemma_canonical_positive(a);
        }
        if b.len() > 0 {
            lemma_canonical_positive(b);
        }
        assert(a =~= b);
    } else {
        let x = a.drop_first();
        let y = b.drop_first();
        let (vx, vy) = (limbs_value(x), limbs_value(y));
        assert(a[0] == b[0] && vx == vy) by (nonlinear_arith)
            requires
                a[0] as nat + LIMB_BASE * vx == b[0] as nat + LIMB_BASE * vy,
                a[0] < LIMB_BASE,
                b[0] < LIMB_BASE,
        ;
        assert(limbs_canonical(x)) by {
            if x.len() > 0 {
                assert(x.last() == a.last());
            }
        }
        assert(limbs_canonical(y)) by {
            if y.len() > 0 {
                assert(y.last() == b.last());
            }
        }
        lemma_canonical_limbs_unique(x, y);
        assert(a =~= seq![a[0]] + x);
        assert(b =~= seq![b[0]] + y);
    }
}

/// An arbitrary-precision natural number.
#[derive(Debug, PartialEq, Eq)]
pub struct Natural {
    pub(crate) limbs: Vec<u32>,
}

impl View for Natural {
    type V = nat;

    closed spec fn view(&self) -> nat {
        limbs_value(self.limbs@)
    }
}

impl Clone for Natural {
    fn clone(&self) -> (r: Natural)
        ensures
            r@ == self@,
    {
        proof {
            use_type_invariant(self);
        }
        Natural { limbs: self.limbs.clone() }
    }
}

/// The white space that may stand anywhere in a number: space, tab, line
/// feed, vertical tab, form feed, carriage return.
pub open spec fn is_space(c: char) -> bool {
    c == ' ' || c == '\t' || c == '\n' || c == '\u{b}' || c == '\u{c}' || c == '\r'
}

/// The integer that `text` stands for in decimal, if it stands for one. It
/// may start with a minus or a plus sign. White space counts for nothing,
/// wherever it stands, and neither do underscores after the first digit.
pub open spec fn parsed_integer(text: Seq<char>) -> Option<int> {
    let written = text.filter(|c: char| !is_space(c));
    let signed = written.len() > 0 && (written[0] == '-' || written[0] == '+');
    let body = if signed { written.drop_first() } else { written };
    let value = decimal_value(body.filter(|c: char| is_decimal_digit(c)));
    if body.len() > 0 && is_decimal_digit(body[0]) && forall|i: int|
        0 <= i < body.len() ==> is_decimal_digit(#[trigger] body[i]) || body[i] == '_' {
        Some(if signed && written[0] == '-' { -(value as int) } else { value as int })
    } else {
        None
    }
}

/// Why a text does not stand for a natural number.
#[derive(Debug, PartialEq, Eq)]
pub enum NotNatural {
    /// It is no number at all.
    Unparsable,
    /// It is a number below zero; this is its absolute value.
    Negative(Natural),
}

impl Natural {
    #[verifier::type_invariant]
    pub closed spec fn well_formed(&self) -> bool {
        limbs_canonical(self.limbs@)
    }

    /// The natural number zero.
    pub fn zero() -> (r: Natural)
        ensures
            r@ == 0,
    {
        Natural { limbs: Vec::new() }
    }

    /// The natural number `x`.
    pub fn from_u32(x: u32) -> (r: Natural)
        ensures
            r@ == x,
    {
        let mut limbs: Vec<u32> = Vec::new();
        if x != 0 {
            limbs.push(x);
        }
        proof {
            reveal_with_fuel(limbs_value, 2);
            if x != 0 {
                assert(limbs@.drop_first() =~= Seq::<u32>::empty());
            }
        }
        Natural { limbs }
    }

    /// Whether the number is zero.
    pub fn is_zero(&self) -> (r: bool)
        ensures
            r == (self@ == 0),
    {
        proof {
            use_type_invariant(self);
            if self.limbs@.len() > 0 {
                lemma_canonical_positive(self.limbs@);
            }
        }
        self.limbs.len() == 0
    }

    /// Whether the number is even.
    pub fn is_even(&self) -> (r: bool)
        ensures
            r == (self@ % 2 == 0),
    {
        if self.limbs.len() == 0 {
            true
        } else {
            let low: u32 = self.limbs[0];
            proof {
                let rest = limbs_value(self.limbs@.drop_first());
                assert((low as nat + LIMB_BASE * rest) % 2 == low as nat % 2) by (nonlinear_arith)
                    requires
                        LIMB_BASE == 2 * 0x8000_0000,
                ;
            }
            low % 2 == 0
        }
    }

    /// Whether the number is below two to the [`BIT_LIMIT`].
    pub fn fits_bit_limit(&self) -> (r: bool)
        ensures
            r == (self@ < pow2(BIT_LIMIT as nat)),
    {
        proof {
            use_type_invariant(self);
            let len = self.limbs@.len();
            lemma_value_upper_bound(self.limbs@);
            if len < 0x7ff_ffff {
                lemma_pow2_strictly_increases(32 * len, BIT_LIMIT as nat);
            }
            if len > 0x7ff_ffff {
                lemma_value_lower_bound(self.limbs@);
                if len > 0x800_0000 {
                    lemma_pow2_strictly_increases(BIT_LIMIT as nat, (32 * (len - 1)) as nat);
                }
            }
        }
        self.limbs.len() <= 0x7ff_ffff
    }

    /// The number as a `u16`, if it fits.
    pub fn to_u16(&self) -> (r: Option<u16>)
        ensures
            self@ <= u16::MAX ==> r == Some(self@ as u16),
            self@ > u16::MAX ==> r is None,
    {
        match self.to_u32() {
            Some(small) => if small <= 0xffff {
                Some(small as u16)
            } else {
                None
            },
            None => None,
        }
    }

    /// Whether the two numbers are the same.
    pub fn equals(&self, other: &Natural) -> (r: bool)
        ensures
            r == (self@ == other@),
    {
        proof {
            use_type_invariant(self);
            use_type_invariant(other);
            if self@ == other@ {
                lemma_canonical_limbs_unique(self.limbs@, other.limbs@);
            }
        }
        if self.limbs.len() != other.limbs.len() {
            return false;
        }
        let mut index: usize = 0;
        while index < self.limbs.len()
            invariant
                index <= self.limbs@.len(),
                self.limbs@.len() == other.limbs@.len(),
                self@ == other@ ==> self.limbs@ == other.limbs@,
                forall|i: int| 0 <= i < index ==> self.limbs@[i] == other.limbs@[i],
            decreases self.limbs@.len() - index,
        {
            if self.limbs[index] != other.limbs[index] {
                return false;
            }
            index += 1;
        }
        assert(self.limbs@ =~= other.limbs@);
        true
    }

    /// The number as a `u32`, if it fits.
    pub fn to_u32(&self) -> (r: Option<u32>)
        ensures
            self@ <= u32::MAX ==> r == Some(self@ as u32),
            self@ > u32::MAX ==> r is None,
    {
        proof {
            use_type_invariant(self);
            lemma2_to64();
            reveal_with_fuel(limbs_value, 2);
        }
        if self.limbs.len() == 0 {
            Some(0)
        } else if self.limbs.len() == 1 {
            proof {
                assert(self.limbs@.drop_first() =~= Seq::<u32>::empty());
            }
            Some(self.limbs[0])
        } else {
            proof {
                lemma_value_lower_bound(self.limbs@);
                lemma_pow2_strictly_increases(0, 32);
                if self.limbs@.len() > 2 {
                    lemma_pow2_strictly_increases(32, (32 * (self.limbs@.len() - 1)) as nat);
                }
            }
            None
        }
    }

    /// Reads a natural number in decimal, and refuses what is no number and
    /// what is below zero.
    pub fn parse(text: &str) -> (r: Result<Natural, NotNatural>)
        ensures
            match parsed_integer(text@) {
                None => r == Err::<Natural, NotNatural>(NotNatural::Unparsable),
                Some(value) => if value >= 0 {
                    r matches Ok(n) && n@ == value
                } else {
                    r matches Err(NotNatural::Negative(magnitude)) && magnitude@ == -value
                },
            },
    {
        match gmp::parse(text) {
            None => Err(NotNatural::Unparsable),
            Some((negative, magnitude)) => {
                if negative {
                    Err(NotNatural::Negative(magnitude))
                } else {
                    Ok(magnitude)
                }
            },
        }
    }

    /// The number in decimal.
    pub fn to_decimal(&self) -> (r: String)
        ensures
            r@ == decimal(self@),
    {
        gmp::to_decimal(self)
    }
}

} // verus!
