use number_facts::natural::Natural;
use number_facts::nerds::triangular::{triangular, triangular_root};
use number_facts::nerds::Fact;
use rug::Integer;

fn natural(i: &Integer) -> Natural {
    Natural::parse(&i.to_string()).unwrap()
}

/// Digit strings short and long, some with leading zeros.
fn digit_strings() -> Vec<String> {
    let mut strings = Vec::new();
    let mut digits = String::new();
    for length in 0..90u32 {
        digits.push(char::from(b'0' + ((length * 7 + length / 5) % 10) as u8));
        strings.push(digits.clone());
    }
    for small in 0..60 {
        strings.push(small.to_string());
    }
    strings
}

#[test]
fn triangular_positive_match() {
    for n in digit_strings() {
        let nth = Integer::from_str_radix(&n, 10).unwrap();
        let x = Integer::from(&nth + Integer::from(&nth * &nth)) / 2;
        assert_eq!(
            triangular(&natural(&x)),
            vec![Fact::Basic(format!("Is the (#{nth})th triangular number."))]
        );
    }
}

#[test]
fn other_numbers_are_not_triangular() {
    let triangles: Vec<u32> = (0..200).map(|k| k * (k + 1) / 2).collect();
    for n in 0..10_000u32 {
        let root = triangular_root(&Natural::from_u32(n));
        match triangles.iter().position(|&t| t == n) {
            Some(k) => assert_eq!(root, Some(Natural::from_u32(k as u32))),
            None => {
                assert_eq!(root, None);
                assert!(triangular(&Natural::from_u32(n)).is_empty());
            }
        }
    }
}

#[test]
fn neighbours_of_large_triangular_numbers() {
    let k = Integer::from_str_radix("123456789012345678901234567890", 10).unwrap();
    let t = Integer::from(&k * Integer::from(&k + 1)) / 2;
    assert_eq!(triangular_root(&natural(&t)), Some(natural(&k)));
    assert_eq!(triangular_root(&natural(&Integer::from(&t + 1))), None);
    assert_eq!(triangular_root(&natural(&Integer::from(&t - 1))), None);
}
