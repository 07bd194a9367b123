use number_facts::natural::Natural;
use number_facts::nerds::{ask_nerds, even_or_odd, triangular_number, Fact, NumberInfo};

fn strings(texts: &[&str]) -> Vec<String> {
    texts.iter().map(|text| text.to_string()).collect()
}

#[test]
fn number_info_keeps_statements_and_forms_apart() {
    let mut info = NumberInfo::default();
    assert!(info.facts.is_empty() && info.forms.is_empty());
    info.record(Fact::Basic("first".to_owned()));
    info.record(Fact::Form("Label".to_owned(), "form".to_owned()));
    info.record(Fact::Basic("second".to_owned()));
    assert_eq!(info.facts, strings(&["first", "second"]));
    assert_eq!(info.forms, vec![("Label".to_owned(), "form".to_owned())]);
}

#[test]
fn record_all_keeps_the_order() {
    let mut info = NumberInfo::default();
    info.record_all(vec![
        Fact::Basic("a".to_owned()),
        Fact::Form("x".to_owned(), "1".to_owned()),
        Fact::Basic("b".to_owned()),
    ]);
    info.record_all(vec![]);
    info.record_all(vec![
        Fact::Form("y".to_owned(), "2".to_owned()),
        Fact::Basic("c".to_owned()),
    ]);
    assert_eq!(info.facts, strings(&["a", "b", "c"]));
    assert_eq!(
        info.forms,
        vec![
            ("x".to_owned(), "1".to_owned()),
            ("y".to_owned(), "2".to_owned())
        ]
    );
}

#[test]
fn ask_nerds_about_six() {
    let info = ask_nerds(&Natural::from_u32(6));
    assert_eq!(
        info.forms,
        vec![
            ("Binary".to_owned(), "110".to_owned()),
            ("Hexadecimal".to_owned(), "6".to_owned()),
            ("Roman numerals".to_owned(), "VI".to_owned()),
        ]
    );
    assert_eq!(
        info.facts,
        strings(&[
            "The prime factors of this number are (#2)×(#3).",
            "Is equal to half the sum of its divisors ((#12)), making it a perfect number.",
            "Is an even number.",
            "Is the (#3)th triangular number.",
        ])
    );
}

#[test]
fn ask_nerds_about_a_power_a_prime_and_a_fibonacci_number() {
    let info = ask_nerds(&Natural::from_u32(8));
    assert_eq!(
        info.facts,
        strings(&[
            "The prime factors of this number are (#2)(^(#3)).",
            "Is less than half the sum of its divisors ((#15)), making it a deficient number.",
            "Is an almost perfect number.",
            "Is the (#6)th fibonacci number.",
            "Is an even number.",
            "This number is a perfect power: (#2)(^(#3)).",
        ])
    );
    let info = ask_nerds(&Natural::from_u32(3));
    assert_eq!(
        info.facts,
        strings(&[
            "The prime factors of this number are (#3).",
            "Is less than half the sum of its divisors ((#4)), making it a deficient number.",
            "Is the (#4)th fibonacci number.",
            "Is an odd number.",
            "Is a prime number.",
            "Is a Mersenne prime: (#2)(^(#2))-(#1)",
            "Is the (#2)th triangular number.",
        ])
    );
}

#[test]
fn ask_nerds_says_the_same_each_time() {
    for text in ["0", "1", "28", "8191", "65536", "12345678901234567890123"] {
        let n = Natural::parse(text).unwrap();
        let first = ask_nerds(&n);
        let second = ask_nerds(&n);
        assert_eq!(first.facts, second.facts);
        assert_eq!(first.forms, second.forms);
    }
}

#[test]
fn ask_nerds_about_zero() {
    let info = ask_nerds(&Natural::zero());
    assert_eq!(
        info.facts,
        strings(&[
            "Is the (#0)th fibonacci number.",
            "Is an even number.",
            "Is the (#0)th triangular number.",
        ])
    );
    assert_eq!(info.forms.len(), 2);
}

#[test]
fn even_or_odd_by_the_lowest_bit() {
    assert_eq!(
        even_or_odd(&Natural::zero()),
        Some("Is an even number.".to_owned())
    );
    assert_eq!(
        even_or_odd(&Natural::from_u32(7)),
        Some("Is an odd number.".to_owned())
    );
    assert_eq!(
        even_or_odd(&Natural::parse("4294967296").unwrap()),
        Some("Is an even number.".to_owned())
    );
    assert_eq!(
        even_or_odd(&Natural::parse("36893488147419103233").unwrap()),
        Some("Is an odd number.".to_owned())
    );
}

#[test]
fn triangular_number_says_the_index() {
    assert_eq!(
        triangular_number(&Natural::from_u32(10)),
        Some("Is the 4th triangular number.".to_owned())
    );
    assert_eq!(
        triangular_number(&Natural::zero()),
        Some("Is the 0th triangular number.".to_owned())
    );
    assert_eq!(triangular_number(&Natural::from_u32(11)), None);
    assert_eq!(triangular_number(&Natural::from_u32(2)), None);
    // The 10^20-th triangular number, and its neighbour.
    assert_eq!(
        triangular_number(&Natural::parse("5000000000000000000050000000000000000000").unwrap()),
        Some("Is the 100000000000000000000th triangular number.".to_owned())
    );
    assert_eq!(
        triangular_number(&Natural::parse("5000000000000000000050000000000000000001").unwrap()),
        None
    );
}

#[test]
fn the_order_of_arrival_changes_only_the_order() {
    let arrived = vec![
        Fact::Basic("a".to_owned()),
        Fact::Form("x".to_owned(), "1".to_owned()),
        Fact::Basic("b".to_owned()),
        Fact::Basic("b".to_owned()),
        Fact::Form("y".to_owned(), "2".to_owned()),
    ];
    let mut in_order = NumberInfo::default();
    in_order.record_all(arrived.clone());
    let mut backwards = NumberInfo::default();
    backwards.record_all(arrived.into_iter().rev().collect());
    assert_ne!(in_order.facts, backwards.facts);
    let sorted = |mut texts: Vec<String>| {
        texts.sort();
        texts
    };
    assert_eq!(sorted(in_order.facts), sorted(backwards.facts));
    let mut forms = (in_order.forms, backwards.forms);
    forms.0.sort();
    forms.1.sort();
    assert_eq!(forms.0, forms.1);
}
