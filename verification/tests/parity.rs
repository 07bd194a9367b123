use number_facts::natural::Natural;
use number_facts::nerds::parity::parity;
use number_facts::nerds::Fact;
use rug::Integer;

fn natural(i: &Integer) -> Natural {
    Natural::parse(&i.to_string()).unwrap()
}

/// Numbers short and long, some with leading zeros.
fn numbers() -> Vec<Integer> {
    let mut numbers = Vec::new();
    let mut digits = String::new();
    for length in 0..80u32 {
        digits.push(char::from(b'0' + ((length * 7 + length / 3) % 10) as u8));
        numbers.push(Integer::from_str_radix(&digits, 10).unwrap());
    }
    for small in 0..50 {
        numbers.push(Integer::from(small));
    }
    numbers
}

#[test]
fn even() {
    for n in numbers() {
        let x = n * 2;
        assert_eq!(
            parity(&natural(&x)),
            vec![Fact::Basic("Is an even number.".to_string())]
        );
    }
}

#[test]
fn odd() {
    for n in numbers() {
        let x = n * 2 + 1;
        assert_eq!(
            parity(&natural(&x)),
            vec![Fact::Basic("Is an odd number.".to_string())]
        );
    }
}

#[test]
fn parity_of_limb_boundaries() {
    for (text, is_even) in [
        ("0", true),
        ("1", false),
        ("4294967295", false),
        ("4294967296", true),
        ("4294967297", false),
        ("18446744073709551616", true),
        ("18446744073709551617", false),
    ] {
        let facts = parity(&Natural::parse(text).unwrap());
        let expected = if is_even {
            "Is an even number."
        } else {
            "Is an odd number."
        };
        assert_eq!(facts, vec![Fact::Basic(expected.to_string())]);
    }
}
