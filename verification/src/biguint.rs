//! Arithmetic on [`Natural`] done by the `num` crate, for the analyzers that
//! answer in plain words.
//!
//! Every function here is trusted: its body turns the limbs into a
//! `num::BigUint` with `BigUint::from_slice`, makes one call, and turns what
//! comes back into limbs with `BigUint::to_u32_digits`, which leaves no zero
//! digit at the top, as a [`Natural`] must have it. Its contract is what
//! `num` documents of that call. Nothing in this file is proved.

use crate::natural::Natural;
use num::BigUint;
use vstd::arithmetic::power2::pow2;
use vstd::arithmetic::power::pow;
use vstd::prelude::*;

verus! {

/// Whether the bit of `a` at `index` is set, the lowest being bit 0, by
/// `BigUint::bit`.
#[verifier::external_body]
pub(crate) fn bit(a: &Natural, index: u64) -> (r: bool)
    ensures
        r == ((a@ / pow2(index as nat)) % 2 == 1),
{
    BigUint::from_slice(&a.limbs).bit(index)
}

/// The truncated square root, by `BigUint::sqrt`.
#[verifier::external_body]
pub(crate) fn sqrt(a: &Natural) -> (r: Natural)
    ensures
        r@ * r@ <= a@ < (r@ + 1) * (r@ + 1),
{
    Natural { limbs: BigUint::from_slice(&a.limbs).sqrt().to_u32_digits() }
}

/// `a` to the `exponent`, by `BigUint::pow`.
#[verifier::external_body]
pub(crate) fn power(a: &Natural, exponent: u32) -> (r: Natural)
    ensures
        r@ == pow(a@ as int, exponent as nat),
{
    Natural { limbs: BigUint::from_slice(&a.limbs).pow(exponent).to_u32_digits() }
}

} // verus!
