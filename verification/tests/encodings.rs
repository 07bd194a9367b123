use number_facts::natural::Natural;
use number_facts::nerds::encodings::{encode_roman, encodings};
use number_facts::nerds::Fact;
use rug::Integer;

fn natural(i: &Integer) -> Natural {
    Natural::parse(&i.to_string()).unwrap()
}

fn form(label: &str, text: &str) -> Fact {
    Fact::Form(label.to_owned(), text.to_owned())
}

/// Digit strings without leading zeros, short and long.
fn digit_strings(digits: &[u8]) -> Vec<String> {
    let mut strings = vec!["0".to_owned()];
    let mut state: u64 = 0x2545_f491_4f6c_dd1d;
    for length in 1..120usize {
        let mut s = String::new();
        for position in 0..length {
            state ^= state << 13;
            state ^= state >> 7;
            state ^= state << 17;
            let mut digit = digits[(state % digits.len() as u64) as usize];
            if position == 0 && digit == b'0' {
                digit = digits[1];
            }
            s.push(digit as char);
        }
        strings.push(s);
    }
    strings
}

#[test]
fn roundtrip_bin() {
    for n in digit_strings(b"01") {
        let x = Integer::from_str_radix(&n, 2).unwrap();
        assert_eq!(
            encodings(&natural(&x)).first(),
            Some(&form("Binary", &n))
        );
    }
}

#[test]
fn roundtrip_hex() {
    for n in digit_strings(b"0123456789ABCDEF") {
        let x = Integer::from_str_radix(&n, 16).unwrap();
        assert_eq!(
            encodings(&natural(&x)).get(1),
            Some(&form("Hexadecimal", &n))
        );
    }
}

#[test]
fn roman_examples() {
    assert_eq!(encode_roman(0), None);
    assert_eq!(encode_roman(123), Some("CXXIII".into()));
    assert_eq!(encode_roman(2024), Some("MMXXIV".into()));
    assert_eq!(encode_roman(3999), Some("MMMCMXCIX".into()));
    assert_eq!(encode_roman(4000), None);
}

#[test]
fn roman_digits_of_every_place() {
    assert_eq!(encode_roman(1), Some("I".into()));
    assert_eq!(encode_roman(4), Some("IV".into()));
    assert_eq!(encode_roman(9), Some("IX".into()));
    assert_eq!(encode_roman(14), Some("XIV".into()));
    assert_eq!(encode_roman(40), Some("XL".into()));
    assert_eq!(encode_roman(90), Some("XC".into()));
    assert_eq!(encode_roman(400), Some("CD".into()));
    assert_eq!(encode_roman(900), Some("CM".into()));
    assert_eq!(encode_roman(1000), Some("M".into()));
    assert_eq!(encode_roman(1888), Some("MDCCCLXXXVIII".into()));
    assert_eq!(encode_roman(3000), Some("MMM".into()));
    assert_eq!(encode_roman(u16::MAX), None);
}

#[test]
fn encodings_of_small_numbers() {
    assert_eq!(
        encodings(&Natural::zero()),
        vec![form("Binary", "0"), form("Hexadecimal", "0")]
    );
    assert_eq!(
        encodings(&Natural::from_u32(255)),
        vec![
            form("Binary", "11111111"),
            form("Hexadecimal", "FF"),
            form("Roman numerals", "CCLV"),
        ]
    );
    assert_eq!(encodings(&Natural::from_u32(3999)).len(), 3);
    assert_eq!(
        encodings(&Natural::from_u32(4000)),
        vec![form("Binary", "111110100000"), form("Hexadecimal", "FA0")]
    );
    assert_eq!(encodings(&Natural::from_u32(65536)).len(), 2);
    assert_eq!(
        encodings(&Natural::parse("18446744073709551615").unwrap()),
        vec![
            form(
                "Binary",
                "1111111111111111111111111111111111111111111111111111111111111111"
            ),
            form("Hexadecimal", "FFFFFFFFFFFFFFFF"),
        ]
    );
}
