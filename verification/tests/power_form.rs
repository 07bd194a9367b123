use number_facts::natural::Natural;
use number_facts::nerds::power_form::{power_form, power_form_impl};
use number_facts::nerds::Fact;
use rug::ops::Pow;
use rug::Integer;

fn natural(i: &Integer) -> Natural {
    Natural::parse(&i.to_string()).unwrap()
}

fn form_of(n: &Integer) -> Option<(Natural, u32)> {
    power_form_impl(natural(n))
}

fn check(n: Integer, base: Integer, exponent: u32) {
    assert_eq!(form_of(&n), Some((natural(&base), exponent)), "{n}");
}

#[test]
fn simpler_tests() {
    check(65536.into(), 2.into(), 16);
    check(2147483648u32.into(), 2.into(), 31);
    check(25.into(), 5.into(), 2);
    check(625.into(), 5.into(), 4);
    check(3125.into(), 5.into(), 5);
    check(
        Integer::from_str_radix("1000000028000000294000001372000002401", 10).unwrap(),
        1_000_000_007.into(),
        4,
    );
}

fn check_reconstructs(a: &Integer, b: u32) {
    let n = Integer::from(a.pow(b));
    let (x, y) = form_of(&n).unwrap_or_else(|| panic!("couldn't find form for {n}"));
    let x = Integer::from_str_radix(&x.to_decimal(), 10).unwrap();
    assert!(x > 1 && y > 1);
    assert_eq!(Integer::from((&x).pow(y)), n, "failed equal: {x}^{y} != {n}");
    assert!(y >= b, "{x}^{y} for {a}^{b}");
}

#[test]
fn reconstruct_powers_large_base() {
    for (a, b) in [
        ("2", 2),
        ("9", 255),
        ("10", 7),
        ("101", 3),
        ("1009", 2),
        ("123456789", 12),
        ("1000000007", 30),
        ("99999999999999999999999999999999999999", 5),
        ("340282366920938463463374607431768211507", 2),
    ] {
        check_reconstructs(&Integer::from_str_radix(a, 10).unwrap(), b);
    }
}

#[test]
fn reconstruct_powers_small_base() {
    for a in (2..256u32).step_by(7) {
        for b in [2u32, 3, 4, 9, 36, 97, 360, 1023] {
            check_reconstructs(&Integer::from(a), b);
        }
    }
}

#[test]
fn the_largest_exponent_is_found() {
    // 2^36 * 3^4 is a fourth power, and as such a square too.
    let n = Integer::from(Integer::from(2).pow(36u32)) * Integer::from(3).pow(4u32);
    check(n, Integer::from(1536), 4);
    check(Integer::from(2).pow(32u32).into(), 2.into(), 32);
    check(Integer::from(4).pow(16u32).into(), 2.into(), 32);
    check(Integer::from(6).pow(12u32).into(), 6.into(), 12);
    check(Integer::from(36).pow(6u32).into(), 6.into(), 12);
    // Without a small prime factor: 101 and 103 are not in the list.
    check(Integer::from(101).pow(6u32).into(), 101.into(), 6);
    check(Integer::from(101 * 103).pow(9u32).into(), (101 * 103).into(), 9);
}

#[test]
fn other_numbers_have_no_power_form() {
    for n in [2u32, 3, 6, 10, 12, 18, 24, 72, 97, 101, 108, 10403, 1_000_003] {
        assert_eq!(form_of(&Integer::from(n)), None, "{n}");
    }
    let n = Integer::from(Integer::from(2).pow(100u32)) * 3;
    assert_eq!(form_of(&n), None);
    let n = Integer::from(Integer::from(101).pow(20u32)) + 1;
    assert_eq!(form_of(&n), None);
}

#[test]
fn perfect_powers_below_ten_thousand() {
    let mut expected = std::collections::BTreeMap::new();
    for x in 2..100u32 {
        let mut power = x * x;
        let mut y = 2;
        while power < 10_000 {
            let entry = expected.entry(power).or_insert((x, y));
            if y > entry.1 {
                *entry = (x, y);
            }
            power *= x;
            y += 1;
        }
    }
    for n in 2..10_000u32 {
        let found = power_form_impl(Natural::from_u32(n)).map(|(x, y)| (x.to_u32().unwrap(), y));
        assert_eq!(found, expected.get(&n).copied(), "{n}");
    }
}

#[test]
fn power_form_says_base_and_exponent() {
    assert_eq!(
        power_form(&Natural::from_u32(65536)),
        vec![Fact::Basic(
            "This number is a perfect power: (#2)(^(#16)).".to_owned()
        )]
    );
    assert!(power_form(&Natural::zero()).is_empty());
    assert!(power_form(&Natural::from_u32(1)).is_empty());
    assert!(power_form(&Natural::from_u32(2)).is_empty());
    assert!(power_form(&Natural::from_u32(24)).is_empty());
}
