//! The analyzers, each of which has something to say about a number, and
//! the collection of what they say.

pub mod encodings;
pub mod factors;
pub mod fibonacci;
pub mod parity;
pub mod power_form;
pub mod prime;
pub mod triangular;

use crate::biguint;
use crate::gmp;
use crate::math::is_triangular;
use crate::natural::Natural;
use crate::text::decimal;
use vstd::multiset::Multiset;
use vstd::prelude::*;
use vstd::string::StringExecFns;

verus! {

/// One thing that is known about a number.
#[derive(Debug, Clone, PartialEq, Eq)]
pub enum Fact {
    /// A statement that stands by itself.
    Basic(String),
    /// Another form of the number: what the form is called, and the number
    /// in that form.
    Form(String, String),
}

/// The text of a [`Fact`].
pub enum FactText {
    /// A statement.
    Basic(Seq<char>),
    /// The name of a form, and the number in that form.
    Form(Seq<char>, Seq<char>),
}

impl View for Fact {
    type V = FactText;

    open spec fn view(&self) -> FactText {
        match self {
            Fact::Basic(text) => FactText::Basic(text@),
            Fact::Form(label, text) => FactText::Form(label@, text@),
        }
    }
}

impl DeepView for Fact {
    type V = FactText;

    open spec fn deep_view(&self) -> FactText {
        self@
    }
}

/// What is known about a number.
#[derive(Debug, Clone)]
pub struct NumberInfo {
    /// The statements, in the order in which they came.
    pub facts: Vec<String>,
    /// Alternate forms of the number, e.g. its binary or hex representation.
    /// Stored as tuple (description, alternate form).
    pub forms: Vec<(String, String)>,
}

/// The text of a [`NumberInfo`].
pub struct NumberInfoText {
    /// The statements, in the order in which they came.
    pub facts: Seq<Seq<char>>,
    /// The forms, each with its name first, in the order in which they came.
    pub forms: Seq<(Seq<char>, Seq<char>)>,
}

impl View for NumberInfo {
    type V = NumberInfoText;

    open spec fn view(&self) -> NumberInfoText {
        NumberInfoText { facts: self.facts.deep_view(), forms: self.forms.deep_view() }
    }
}

/// `info` with `fact` added: a statement joins the statements, a form the
/// forms, each at the end.
pub open spec fn with_fact(info: NumberInfoText, fact: FactText) -> NumberInfoText {
    match fact {
        FactText::Basic(text) => NumberInfoText { facts: info.facts.push(text), forms: info.forms },
        FactText::Form(label, text) => NumberInfoText {
            facts: info.facts,
            forms: info.forms.push((label, text)),
        },
    }
}

/// `info` with the facts of `arrived` added, in that order.
pub open spec fn with_facts(info: NumberInfoText, arrived: Seq<FactText>) -> NumberInfoText
    decreases arrived.len(),
{
    if arrived.len() == 0 {
        info
    } else {
        with_fact(with_facts(info, arrived.drop_last()), arrived.last())
    }
}

/// What is known once the facts of `arrived` have come in, in that order.
pub open spec fn collected(arrived: Seq<FactText>) -> NumberInfoText {
    with_facts(NumberInfoText { facts: Seq::empty(), forms: Seq::empty() }, arrived)
}

impl Default for NumberInfo {
    fn default() -> (r: NumberInfo)
        ensures
            r@ == collected(Seq::empty()),
    {
        let r = NumberInfo { facts: Vec::new(), forms: Vec::new() };
        assert(r.facts.deep_view() =~= Seq::empty());
        assert(r.forms.deep_view() =~= Seq::empty());
        r
    }
}

impl NumberInfo {
    /// Takes in one fact.
    pub fn record(&mut self, fact: Fact)
        ensures
            final(self)@ == with_fact(old(self)@, fact@),
    {
        match fact {
            Fact::Basic(text) => {
                self.facts.push(text);
                assert(self.facts.deep_view() =~= old(self).facts.deep_view().push(text@));
            },
            Fact::Form(label, text) => {
                self.forms.push((label, text));
                assert(self.forms.deep_view() =~= old(self).forms.deep_view().push(
                    (label@, text@),
                ));
            },
        }
    }

    /// Takes in facts, in their order.
    pub fn record_all(&mut self, facts: Vec<Fact>)
        ensures
            final(self)@ == with_facts(old(self)@, facts.deep_view()),
    {
        let ghost all = facts.deep_view();
        assert(all.take(0) =~= Seq::<FactText>::empty());
        for fact in it: facts
            invariant
                it.seq().len() == all.len(),
                forall|i: int| 0 <= i < all.len() ==> (#[trigger] it.seq()[i])@ == all[i],
                self@ == with_facts(old(self)@, all.take(it.index())),
        {
            proof {
                let next = all.take(it.index() + 1);
                assert(next.drop_last() =~= all.take(it.index()));
                assert(next.last() == fact@);
            }
            self.record(fact);
        }
        assert(all.take(all.len() as int) =~= all);
    }
}

/// Adding facts in two goes is adding them in one.
pub proof fn lemma_with_facts_concat(info: NumberInfoText, a: Seq<FactText>, b: Seq<FactText>)
    ensures
        with_facts(with_facts(info, a), b) == with_facts(info, a + b),
    decreases b.len(),
{
    if b.len() == 0 {
        assert(a + b =~= a);
    } else {
        lemma_with_facts_concat(info, a, b.drop_last());
        assert((a + b).drop_last() =~= a + b.drop_last());
        assert((a + b).last() == b.last());
    }
}

/// The statements collected are as many of each text as arrived of it, and
/// so are the forms.
pub proof fn lemma_collected_counts(arrived: Seq<FactText>)
    ensures
        forall|text: Seq<char>| #[trigger]
            collected(arrived).facts.to_multiset().count(text) == arrived.to_multiset().count(
                FactText::Basic(text),
            ),
        forall|form: (Seq<char>, Seq<char>)| #[trigger]
            collected(arrived).forms.to_multiset().count(form) == arrived.to_multiset().count(
                FactText::Form(form.0, form.1),
            ),
    decreases arrived.len(),
{
    broadcast use vstd::multiset::group_multiset_axioms;

    if arrived.len() == 0 {
        assert(arrived.to_multiset() =~= Multiset::empty()) by {
            arrived.to_multiset_ensures();
        }
        assert(collected(arrived).facts.to_multiset() =~= Multiset::empty()) by {
            collected(arrived).facts.to_multiset_ensures();
        }
        assert(collected(arrived).forms.to_multiset() =~= Multiset::empty()) by {
            collected(arrived).forms.to_multiset_ensures();
        }
    } else {
        let before = arrived.drop_last();
        let last = arrived.last();
        lemma_collected_counts(before);
        assert(arrived =~= before.push(last));
        assert(collected(arrived) == with_fact(collected(before), last));
        vstd::seq_lib::to_multiset_build(before, last);
        match last {
            FactText::Basic(text) => {
                vstd::seq_lib::to_multiset_build(collected(before).facts, text);
            },
            FactText::Form(label, text) => {
                vstd::seq_lib::to_multiset_build(collected(before).forms, (label, text));
            },
        }
    }
}

/// The order in which the facts of the analyzers arrive does not change
/// what is collected, but for its order: if the same facts arrive, as many
/// times each, the same statements and the same forms are collected, as
/// many times each.
pub proof fn lemma_collected_whatever_the_order(a: Seq<FactText>, b: Seq<FactText>)
    requires
        a.to_multiset() == b.to_multiset(),
    ensures
        collected(a).facts.to_multiset() == collected(b).facts.to_multiset(),
        collected(a).forms.to_multiset() == collected(b).forms.to_multiset(),
{
    lemma_collected_counts(a);
    lemma_collected_counts(b);
    assert(collected(a).facts.to_multiset() =~= collected(b).facts.to_multiset());
    assert(collected(a).forms.to_multiset() =~= collected(b).forms.to_multiset());
}

/// The facts of all analyzers about `n`, analyzer after analyzer.
pub open spec fn all_facts(n: nat) -> Seq<FactText> {
    encodings::encodings_facts(n) + factors::factors_facts(n) + fibonacci::fibonacci_facts(n)
        + parity::parity_facts(n) + power_form::power_form_facts(n) + prime::prime_facts(n)
        + triangular::triangular_facts(n)
}

/// Asks every analyzer about `n` and collects what they say.
pub fn ask_nerds(n: &Natural) -> (info: NumberInfo)
    ensures
        info@ == collected(all_facts(n@)),
{
    let mut info = NumberInfo::default();
    let ghost start = info@;
    info.record_all(encodings::encodings(n));
    info.record_all(factors::factors(n));
    info.record_all(fibonacci::fibonacci(n));
    info.record_all(parity::parity(n));
    info.record_all(power_form::power_form(n));
    info.record_all(prime::prime(n));
    info.record_all(triangular::triangular(n));
    proof {
        let e = encodings::encodings_facts(n@);
        let f = factors::factors_facts(n@);
        let fi = fibonacci::fibonacci_facts(n@);
        let pa = parity::parity_facts(n@);
        let po = power_form::power_form_facts(n@);
        let pr = prime::prime_facts(n@);
        let t = triangular::triangular_facts(n@);
        lemma_with_facts_concat(start, e, f);
        lemma_with_facts_concat(start, e + f, fi);
        lemma_with_facts_concat(start, e + f + fi, pa);
        lemma_with_facts_concat(start, e + f + fi + pa, po);
        lemma_with_facts_concat(start, e + f + fi + pa + po, pr);
        lemma_with_facts_concat(start, e + f + fi + pa + po + pr, t);
    }
    info
}

/// Says in plain words whether `n` is even or odd.
pub fn even_or_odd(n: &Natural) -> (r: Option<String>)
    ensures
        r matches Some(text) && text@ == if n@ % 2 == 1 {
            "Is an odd number."@
        } else {
            "Is an even number."@
        },
{
    proof {
        vstd::arithmetic::power2::lemma2_to64();
    }
    Some(
        if biguint::bit(n, 0) {
            String::from_str("Is an odd number.")
        } else {
            String::from_str("Is an even number.")
        },
    )
}

/// Says in plain words which triangular number `n` is, if it is one.
pub fn triangular_number(n: &Natural) -> (r: Option<String>)
    ensures
        match r {
            Some(text) => is_triangular(n@) && text@ == "Is the "@ + decimal(
                triangular::triangular_index(n@),
            ) + "th triangular number."@,
            None => !is_triangular(n@),
        },
{
    let eight = Natural::from_u32(8);
    let one = Natural::from_u32(1);
    let two = Natural::from_u32(2);
    let disc_sq = gmp::add(&gmp::mul(n, &eight), &one);
    let disc = biguint::sqrt(&disc_sq);
    proof {
        triangular::lemma_triangular_by_root(n@, disc@);
        vstd::arithmetic::power::lemma_square_is_pow2(disc@ as int);
        vstd::arithmetic::power2::lemma2_to64();
    }
    // 8x+1 must be a square
    if !biguint::power(&disc, 2).equals(&disc_sq) {
        return None;
    }
    // sqrt(8x+1)-1 must be even
    if !biguint::bit(&disc, 0) {
        return None;
    }
    let root = gmp::div_rem(&gmp::sub(&disc, &one), &two).0;
    let mut text = String::from_str("Is the ");
    text.append(gmp::to_decimal(&root).as_str());
    text.append("th triangular number.");
    proof {
        triangular::lemma_triangular_index_unique(n@, root@);
    }
    Some(text)
}

} // verus!
