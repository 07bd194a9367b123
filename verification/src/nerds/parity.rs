//! Whether a number is even or odd.

use crate::natural::Natural;
use crate::nerds::{Fact, FactText};
use vstd::prelude::*;
use vstd::string::StringExecFns;

verus! {

/// What is said of the parity of `n`.
pub open spec fn parity_facts(n: nat) -> Seq<FactText> {
    if n % 2 == 0 {
        seq![FactText::Basic("Is an even number."@)]
    } else {
        seq![FactText::Basic("Is an odd number."@)]
    }
}

/// Says whether `n` is even or odd: always one statement.
pub fn parity(n: &Natural) -> (facts: Vec<Fact>)
    ensures
        facts.deep_view() == parity_facts(n@),
{
    let text = if n.is_even() {
        "Is an even number."
    } else {
        "Is an odd number."
    };
    let mut facts: Vec<Fact> = Vec::new();
    facts.push(Fact::Basic(String::from_str(text)));
    assert(facts.deep_view() =~= parity_facts(n@));
    facts
}

} // verus!
