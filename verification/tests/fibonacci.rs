use number_facts::natural::Natural;
use number_facts::nerds::fibonacci::{fib_index, fibonacci, is_fib};
use number_facts::nerds::Fact;
use rug::Integer;

fn natural(i: &Integer) -> Natural {
    Natural::parse(&i.to_string()).unwrap()
}

fn check_index(n: u32) {
    let nth = Integer::from(Integer::fibonacci(n));
    if nth == 1 {
        // fib(n) = 1 has two solutions
        return;
    }
    let nth = natural(&nth);
    assert!(is_fib(&nth));
    assert_eq!(fib_index(&nth), Natural::from_u32(n));
}

#[test]
fn fibonacci_positive_match() {
    for n in 0..200u32 {
        check_index(n);
    }
    for n in (200..10000u32).step_by(61) {
        check_index(n);
    }
    check_index(9999);
}

#[test]
fn the_one_is_the_first_fibonacci_number() {
    assert!(is_fib(&Natural::from_u32(1)));
    assert_eq!(fib_index(&Natural::from_u32(1)), Natural::from_u32(1));
    assert_eq!(fib_index(&Natural::zero()), Natural::zero());
    assert_eq!(fib_index(&Natural::from_u32(2)), Natural::from_u32(3));
}

#[test]
fn indexes_around_the_table_and_the_doubling() {
    for n in [31, 32, 33, 34, 63, 64, 65, 66, 127, 128, 129, 255, 256, 257] {
        check_index(n);
    }
}

#[test]
fn other_numbers_are_no_fibonacci_numbers() {
    let mut fibs = vec![0u64, 1];
    while *fibs.last().unwrap() < 100_000 {
        fibs.push(fibs[fibs.len() - 1] + fibs[fibs.len() - 2]);
    }
    for n in 0..5000u32 {
        assert_eq!(
            is_fib(&Natural::from_u32(n)),
            fibs.contains(&u64::from(n)),
            "{n}"
        );
    }
    for k in [100u32, 500, 1000] {
        let f = Integer::from(Integer::fibonacci(k));
        assert!(!is_fib(&natural(&Integer::from(&f + 1))));
        assert!(!is_fib(&natural(&Integer::from(&f - 1))));
        assert!(fibonacci(&natural(&Integer::from(&f + 1))).is_empty());
    }
}

#[test]
fn fibonacci_says_the_index() {
    assert_eq!(
        fibonacci(&Natural::from_u32(144)),
        vec![Fact::Basic("Is the (#12)th fibonacci number.".to_owned())]
    );
    assert_eq!(
        fibonacci(&Natural::zero()),
        vec![Fact::Basic("Is the (#0)th fibonacci number.".to_owned())]
    );
    assert_eq!(
        fibonacci(&Natural::parse("354224848179261915075").unwrap()),
        vec![Fact::Basic("Is the (#100)th fibonacci number.".to_owned())]
    );
    assert!(fibonacci(&Natural::from_u32(4)).is_empty());
}
