use number_facts::natural::{Natural, NotNatural};

#[test]
fn small_values_round_trip() {
    assert_eq!(Natural::from_u32(0).to_u32(), Some(0));
    assert_eq!(Natural::from_u32(7).to_u32(), Some(7));
    assert_eq!(Natural::from_u32(u32::MAX).to_u32(), Some(u32::MAX));
    assert!(Natural::zero().is_zero());
    assert!(!Natural::from_u32(3).is_even());
}

#[test]
fn parse_reads_decimal_numbers() {
    assert_eq!(Natural::parse("0"), Ok(Natural::zero()));
    assert_eq!(Natural::parse("42"), Ok(Natural::from_u32(42)));
    assert_eq!(Natural::parse("+42"), Ok(Natural::from_u32(42)));
    assert_eq!(Natural::parse("0042"), Ok(Natural::from_u32(42)));
    assert_eq!(Natural::parse("-0"), Ok(Natural::zero()));
    assert_eq!(Natural::parse(""), Err(NotNatural::Unparsable));
    assert_eq!(Natural::parse("12a"), Err(NotNatural::Unparsable));
    assert_eq!(Natural::parse("random"), Err(NotNatural::Unparsable));
    assert_eq!(
        Natural::parse("-7"),
        Err(NotNatural::Negative(Natural::from_u32(7)))
    );
    assert_eq!(
        Natural::parse("340282366920938463463374607431768211456")
            .unwrap()
            .to_decimal(),
        "340282366920938463463374607431768211456"
    );
}

#[test]
fn large_values_do_not_fit_u32() {
    assert_eq!(Natural::parse("4294967295").unwrap().to_u32(), Some(u32::MAX));
    assert_eq!(Natural::parse("4294967296").unwrap().to_u32(), None);
    assert_eq!(Natural::parse("18446744073709551616").unwrap().to_u32(), None);
    assert!(Natural::parse("18446744073709551616").unwrap().is_even());
    assert!(!Natural::parse("18446744073709551617").unwrap().is_even());
    assert!(!Natural::parse("18446744073709551616").unwrap().is_zero());
}

#[test]
fn parse_ignores_white_space_and_underscores() {
    assert_eq!(Natural::parse("1_000"), Ok(Natural::from_u32(1000)));
    assert_eq!(Natural::parse("1 2"), Ok(Natural::from_u32(12)));
    assert_eq!(Natural::parse(" + 7 "), Ok(Natural::from_u32(7)));
    assert_eq!(Natural::parse("\t4\n2\r"), Ok(Natural::from_u32(42)));
    assert_eq!(Natural::parse("\u{b}5\u{c}"), Ok(Natural::from_u32(5)));
    assert_eq!(Natural::parse("1__2_"), Ok(Natural::from_u32(12)));
    assert_eq!(Natural::parse("0_"), Ok(Natural::zero()));
    assert_eq!(Natural::parse("000"), Ok(Natural::zero()));
    assert_eq!(
        Natural::parse("- 1_0"),
        Err(NotNatural::Negative(Natural::from_u32(10)))
    );
    assert_eq!(Natural::parse("- 0 0"), Ok(Natural::zero()));
}

#[test]
fn parse_refuses_what_is_no_number() {
    for text in [
        "", " ", "+", "-", "_", "_1", "+_1", "-_1", "+-1", "--1", "1-2", "1+", "1-", "1.5", "1e3",
        "0x10", "ff", "１２", "1\u{a0}2", "١٢",
    ] {
        assert_eq!(Natural::parse(text), Err(NotNatural::Unparsable), "{text:?}");
    }
}
