use number_facts::natural::Natural;
use number_facts::nerds::factors::{factors, factors_impl, sum_of_divisors, LIMIT};
use number_facts::nerds::Fact;

fn basic(text: &str) -> Fact {
    Fact::Basic(text.to_owned())
}

fn prime_factors_line(list: &str) -> Fact {
    basic(&format!("The prime factors of this number are {list}."))
}

#[test]
fn factors_format_properly() {
    assert_eq!(
        factors(&Natural::from_u32(19)).first(),
        Some(&prime_factors_line("(#19)"))
    );
    assert_eq!(
        factors(&Natural::from_u32(198900)).first(),
        Some(&prime_factors_line(
            "(#2)(^(#2))×(#3)(^(#2))×(#5)(^(#2))×(#13)×(#17)"
        ))
    );
}

fn divisor_sum_of(n: u32) -> Option<u32> {
    let fs = factors_impl(n);
    sum_of_divisors(&fs).to_u32()
}

#[test]
fn sum_of_divisors_cases() {
    assert_eq!(divisor_sum_of(2), Some(3));
    assert_eq!(divisor_sum_of(5), Some(6));
    assert_eq!(divisor_sum_of(4), Some(7));
    assert_eq!(divisor_sum_of(6), Some(6 * 2));
    assert_eq!(divisor_sum_of(12), Some(28));
    assert_eq!(divisor_sum_of(16), Some(31));
    assert_eq!(divisor_sum_of(28), Some(28 * 2));
}

#[test]
fn factors_impl_examples() {
    assert_eq!(factors_impl(2), vec![(2, 1)]);
    assert_eq!(factors_impl(3), vec![(3, 1)]);
    assert_eq!(factors_impl(4), vec![(2, 2)]);
    assert_eq!(factors_impl(97), vec![(97, 1)]);
    assert_eq!(factors_impl(360), vec![(2, 3), (3, 2), (5, 1)]);
    assert_eq!(factors_impl(9_999_991), vec![(9_999_991, 1)]);
    assert_eq!(factors_impl(99_999_989), vec![(99_999_989, 1)]);
    assert_eq!(factors_impl(LIMIT), vec![(2, 8), (5, 8)]);
    assert_eq!(factors_impl(67_108_864), vec![(2, 26)]);
    assert_eq!(factors_impl(99_980_001), vec![(3, 4), (11, 2), (101, 2)]);
}

/// A spread of numbers from 2 to the limit.
fn sample() -> Vec<u32> {
    let mut numbers: Vec<u32> = (2..2000).collect();
    let mut n: u32 = 2000;
    while n < LIMIT {
        numbers.push(n);
        numbers.push(n + 1);
        n = n / 7 * 8 + 3;
    }
    numbers.push(LIMIT - 1);
    numbers.push(LIMIT);
    numbers
}

#[test]
fn factors_multiply_to_num() {
    for n in sample() {
        let multiplied: u32 = factors_impl(n)
            .into_iter()
            .map(|(p, count)| p.pow(count))
            .product();
        assert_eq!(n, multiplied);
    }
}

#[test]
fn only_prime_factors() {
    for n in sample() {
        for (p, _) in factors_impl(n) {
            assert_eq!(factors_impl(p), vec![(p, 1)], "factor {p} of {n} is no prime");
        }
    }
}

#[test]
fn factors_rise_and_powers_are_positive() {
    for n in sample() {
        let fs = factors_impl(n);
        assert!(!fs.is_empty());
        assert!(fs.windows(2).all(|w| w[0].0 < w[1].0));
        assert!(fs.iter().all(|&(_, count)| count >= 1));
    }
}

fn merge(fa: &[(u32, u32)], fb: &[(u32, u32)]) -> Vec<(u32, u32)> {
    let mut merged = Vec::new();
    let (mut i, mut j) = (0, 0);
    loop {
        match (fa.get(i), fb.get(j)) {
            (Some(&(x, cx)), Some(&(y, cy))) => {
                if x == y {
                    merged.push((x, cx + cy));
                    i += 1;
                    j += 1;
                } else if x < y {
                    merged.push((x, cx));
                    i += 1;
                } else {
                    merged.push((y, cy));
                    j += 1;
                }
            }
            (Some(t), None) => {
                merged.push(*t);
                i += 1;
            }
            (None, Some(t)) => {
                merged.push(*t);
                j += 1;
            }
            (None, None) => break,
        }
    }
    merged
}

#[test]
fn factors_distribute_over_mul() {
    for a in (2..10_000u32).step_by(97) {
        for b in (2..10_000u32).step_by(389) {
            assert_eq!(
                factors_impl(a * b),
                merge(&factors_impl(a), &factors_impl(b))
            );
        }
    }
}

fn gcd(a: u32, b: u32) -> u32 {
    if b == 0 {
        a
    } else {
        gcd(b, a % b)
    }
}

#[test]
fn sum_of_divisors_is_multiplicative() {
    for a in (2..10_000u32).step_by(131) {
        for b in (2..10_000u32).step_by(457) {
            let g = gcd(a, b);
            let (a, b) = (a / g, b / g);
            if a < 2 || b < 2 {
                continue;
            }
            // Now they're both coprime, so we can properly test multiplicativity.
            let a_sum = u64::from(divisor_sum_of(a).unwrap());
            let b_sum = u64::from(divisor_sum_of(b).unwrap());
            assert_eq!(a_sum * b_sum, u64::from(divisor_sum_of(a * b).unwrap()));
        }
    }
}

#[test]
fn sum_of_divisors_of_any_list() {
    assert_eq!(sum_of_divisors(&[]).to_u32(), Some(1));
    assert_eq!(sum_of_divisors(&[(7, 0)]).to_u32(), Some(1));
    assert_eq!(sum_of_divisors(&[(0, 3)]).to_u32(), Some(1));
    assert_eq!(sum_of_divisors(&[(10, 3)]).to_u32(), Some(1111));
    assert_eq!(
        sum_of_divisors(&[(4_294_967_295, 2)]).to_decimal(),
        "18446744069414584321"
    );
}

#[test]
fn aliquot_classes() {
    let second = |n: u32| factors(&Natural::from_u32(n)).get(1).cloned();
    assert_eq!(
        second(8),
        Some(basic(
            "Is less than half the sum of its divisors ((#15)), making it a deficient number."
        ))
    );
    assert_eq!(
        second(28),
        Some(basic(
            "Is equal to half the sum of its divisors ((#56)), making it a perfect number."
        ))
    );
    assert_eq!(
        second(12),
        Some(basic(
            "Is greater than half the sum of its divisors ((#28)), making it an abundant number."
        ))
    );
}

#[test]
fn almost_perfect_numbers_are_the_powers_of_two() {
    let almost = basic("Is an almost perfect number.");
    for n in 2..600u32 {
        let facts = factors(&Natural::from_u32(n));
        assert_eq!(facts.len(), if n.is_power_of_two() { 3 } else { 2 });
        assert_eq!(facts.contains(&almost), n.is_power_of_two());
    }
}

#[test]
fn numbers_out_of_range_have_no_factor_facts() {
    assert!(factors(&Natural::zero()).is_empty());
    assert!(factors(&Natural::from_u32(1)).is_empty());
    assert!(factors(&Natural::from_u32(LIMIT + 1)).is_empty());
    assert!(factors(&Natural::from_u32(u32::MAX)).is_empty());
    assert!(factors(&Natural::parse("4294967296").unwrap()).is_empty());
    assert!(factors(&Natural::parse("123456789012345678901234567890").unwrap()).is_empty());
    assert_eq!(factors(&Natural::from_u32(LIMIT)).len(), 2);
}
