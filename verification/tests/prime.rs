use number_facts::gmp::PrimeVerdict;
use number_facts::natural::Natural;
use number_facts::nerds::prime::{prime, prime_verdict_facts};
use number_facts::nerds::Fact;
use rug::Integer;

fn natural(i: &Integer) -> Natural {
    Natural::parse(&i.to_string()).unwrap()
}

fn basic(text: &str) -> Fact {
    Fact::Basic(text.to_owned())
}

/// Numbers short and long.
fn numbers() -> Vec<Integer> {
    let mut numbers = Vec::new();
    let mut digits = String::new();
    for length in 0..40u32 {
        digits.push(char::from(b'0' + ((length * 3 + length / 4 + 7) % 10) as u8));
        numbers.push(Integer::from_str_radix(&digits, 10).unwrap());
    }
    for small in 0..20 {
        numbers.push(Integer::from(small));
    }
    numbers
}

#[test]
fn no_composites() {
    let numbers = numbers();
    for (i, a) in numbers.iter().enumerate() {
        for b in numbers.iter().skip(i % 7).step_by(7) {
            let a = Integer::from(a + 2);
            let b = Integer::from(b + 2);
            let x = a * b;
            assert_eq!(prime(&natural(&x)), vec![], "{x}");
        }
    }
}

#[test]
fn mersenne() {
    for (n, power) in [(3u32, 2), (7, 3), (31, 5), (127, 7), (8191, 13)] {
        let facts = prime(&Natural::from_u32(n));
        assert_eq!(facts.len(), 2);
        assert_eq!(
            facts[1],
            basic(&format!("Is a Mersenne prime: (#2)(^(#{power}))-(#1)"))
        );
    }
}

#[test]
fn small_primes_are_certain() {
    for n in [2u32, 5, 11, 13, 97, 7919, 999_983] {
        assert_eq!(
            prime(&Natural::from_u32(n)),
            vec![basic("Is a prime number.")],
            "{n}"
        );
    }
    for n in [0u32, 1, 4, 9, 15, 91, 7917, 1_000_001] {
        assert_eq!(prime(&Natural::from_u32(n)), vec![], "{n}");
    }
}

#[test]
fn large_primes_are_said_to_be_primes() {
    // 2^89 - 1 and 2^127 - 1 are Mersenne primes.
    for power in [89u32, 127] {
        let n = (Integer::from(1) << power) - 1;
        let facts = prime(&natural(&n));
        assert_eq!(facts.len(), 2);
        assert!(
            facts[0] == basic("Is a prime number.")
                || facts[0] == basic("Is almost certainly a prime number.")
        );
        assert_eq!(
            facts[1],
            basic(&format!("Is a Mersenne prime: (#2)(^(#{power}))-(#1)"))
        );
    }
    // 2^64 + 13 is a prime, and no Mersenne prime.
    let facts = prime(&Natural::parse("18446744073709551629").unwrap());
    assert_eq!(facts.len(), 1);
}

#[test]
fn the_verdict_decides_what_is_said() {
    let n = Natural::from_u32(31);
    let mersenne = basic("Is a Mersenne prime: (#2)(^(#5))-(#1)");
    assert_eq!(prime_verdict_facts(PrimeVerdict::No, &n), vec![]);
    assert_eq!(
        prime_verdict_facts(PrimeVerdict::Yes, &n),
        vec![basic("Is a prime number."), mersenne.clone()]
    );
    assert_eq!(
        prime_verdict_facts(PrimeVerdict::Probably, &n),
        vec![basic("Is almost certainly a prime number."), mersenne]
    );
    let n = Natural::from_u32(29);
    assert_eq!(
        prime_verdict_facts(PrimeVerdict::Probably, &n),
        vec![basic("Is almost certainly a prime number.")]
    );
    // One is one less than two, zero one less than one.
    assert_eq!(
        prime_verdict_facts(PrimeVerdict::Yes, &Natural::from_u32(1)),
        vec![
            basic("Is a prime number."),
            basic("Is a Mersenne prime: (#2)(^(#1))-(#1)")
        ]
    );
    assert_eq!(
        prime_verdict_facts(PrimeVerdict::Yes, &Natural::zero()),
        vec![
            basic("Is a prime number."),
            basic("Is a Mersenne prime: (#2)(^(#0))-(#1)")
        ]
    );
}
