//! The number in other notations: binary, hexadecimal, Roman numerals.

use crate::gmp;
use crate::natural::Natural;
use crate::nerds::{Fact, FactText};
use crate::text::radix_digits;
use vstd::prelude::*;
use vstd::string::StringExecFns;

verus! {

/// `count` times the character `c`.
pub open spec fn repeated(c: char, count: nat) -> Seq<char> {
    Seq::new(count, |i: int| c)
}

/// One decimal digit `d` in Roman numerals, written with the symbols for
/// one, five and ten of its place.
pub open spec fn roman_digit(d: nat, one: char, five: char, ten: char) -> Seq<char> {
    if d <= 3 {
        repeated(one, d)
    } else if d == 4 {
        seq![one, five]
    } else if d <= 8 {
        seq![five] + repeated(one, (d - 5) as nat)
    } else {
        seq![one, ten]
    }
}

/// `n`, from 1 to 3999, in Roman numerals: its thousands, hundreds, tens
/// and units, each in the symbols of its place.
pub open spec fn roman(n: nat) -> Seq<char> {
    repeated('M', n / 1000) + roman_digit(n / 100 % 10, 'C', 'D', 'M') + roman_digit(
        n / 10 % 10,
        'X',
        'L',
        'C',
    ) + roman_digit(n % 10, 'I', 'V', 'X')
}

/// What is said of the notations of `n`.
pub open spec fn encodings_facts(n: nat) -> Seq<FactText> {
    let facts = seq![
        FactText::Form("Binary"@, radix_digits(n, 2)),
        FactText::Form("Hexadecimal"@, radix_digits(n, 16)),
    ];
    if 1 <= n < 4000 {
        facts.push(FactText::Form("Roman numerals"@, roman(n)))
    } else {
        facts
    }
}

/// The units, from the table of their ten numerals.
fn units(d: u16) -> (r: &'static str)
    requires
        d < 10,
    ensures
        r@ == roman_digit(d as nat, 'I', 'V', 'X'),
{
    let r = match d {
        0 => "",
        1 => "I",
        2 => "II",
        3 => "III",
        4 => "IV",
        5 => "V",
        6 => "VI",
        7 => "VII",
        8 => "VIII",
        _ => "IX",
    };
    proof {
        reveal_strlit("");
        reveal_strlit("I");
        reveal_strlit("II");
        reveal_strlit("III");
        reveal_strlit("IV");
        reveal_strlit("V");
        reveal_strlit("VI");
        reveal_strlit("VII");
        reveal_strlit("VIII");
        reveal_strlit("IX");
        assert(r@ =~= roman_digit(d as nat, 'I', 'V', 'X'));
    }
    r
}

/// The tens, from the table of their ten numerals.
fn tens(d: u16) -> (r: &'static str)
    requires
        d < 10,
    ensures
        r@ == roman_digit(d as nat, 'X', 'L', 'C'),
{
    let r = match d {
        0 => "",
        1 => "X",
        2 => "XX",
        3 => "XXX",
        4 => "XL",
        5 => "L",
        6 => "LX",
        7 => "LXX",
        8 => "LXXX",
        _ => "XC",
    };
    proof {
        reveal_strlit("");
        reveal_strlit("X");
        reveal_strlit("XX");
        reveal_strlit("XXX");
        reveal_strlit("XL");
        reveal_strlit("L");
        reveal_strlit("LX");
        reveal_strlit("LXX");
        reveal_strlit("LXXX");
        reveal_strlit("XC");
        assert(r@ =~= roman_digit(d as nat, 'X', 'L', 'C'));
    }
    r
}

/// The hundreds, from the table of their ten numerals.
fn hundreds(d: u16) -> (r: &'static str)
    requires
        d < 10,
    ensures
        r@ == roman_digit(d as nat, 'C', 'D', 'M'),
{
    let r = match d {
        0 => "",
        1 => "C",
        2 => "CC",
        3 => "CCC",
        4 => "CD",
        5 => "D",
        6 => "DC",
        7 => "DCC",
        8 => "DCCC",
        _ => "CM",
    };
    proof {
        reveal_strlit("");
        reveal_strlit("C");
        reveal_strlit("CC");
        reveal_strlit("CCC");
        reveal_strlit("CD");
        reveal_strlit("D");
        reveal_strlit("DC");
        reveal_strlit("DCC");
        reveal_strlit("DCCC");
        reveal_strlit("CM");
        assert(r@ =~= roman_digit(d as nat, 'C', 'D', 'M'));
    }
    r
}

/// The thousands, from the table of their four numerals.
fn thousands(d: u16) -> (r: &'static str)
    requires
        d < 4,
    ensures
        r@ == repeated('M', d as nat),
{
    let r = match d {
        0 => "",
        1 => "M",
        2 => "MM",
        _ => "MMM",
    };
    proof {
        reveal_strlit("");
        reveal_strlit("M");
        reveal_strlit("MM");
        reveal_strlit("MMM");
        assert(r@ =~= repeated('M', d as nat));
    }
    r
}

/// `n` in Roman numerals, for `n` from 1 to 3999.
pub fn encode_roman(n: u16) -> (r: Option<String>)
    ensures
        match r {
            Some(numerals) => 1 <= n < 4000 && numerals@ == roman(n as nat),
            None => n == 0 || n >= 4000,
        },
{
    if n == 0 || n >= 4000 {
        return None;
    }
    let u = n % 10;
    let n = n / 10;
    let t = n % 10;
    let n = n / 10;
    let h = n % 10;
    let n = n / 10;
    let th = n % 10;

    let mut numerals = String::from_str(thousands(th));
    numerals.append(hundreds(h));
    numerals.append(tens(t));
    numerals.append(units(u));
    Some(numerals)
}

/// Writes `n` in binary and in hexadecimal and, from 1 to 3999, in Roman
/// numerals.
pub fn encodings(n: &Natural) -> (facts: Vec<Fact>)
    ensures
        facts.deep_view() == encodings_facts(n@),
{
    let mut facts: Vec<Fact> = Vec::new();
    facts.push(Fact::Form(String::from_str("Binary"), gmp::to_binary(n)));
    facts.push(Fact::Form(String::from_str("Hexadecimal"), gmp::to_upper_hex(n)));
    match n.to_u16() {
        Some(small) => {
            match encode_roman(small) {
                Some(roman) => {
                    facts.push(Fact::Form(String::from_str("Roman numerals"), roman));
                },
                None => {},
            }
        },
        None => {},
    }
    assert(facts.deep_view() =~= encodings_facts(n@));
    facts
}

} // verus!
