use bets::{Amount, BetError};

#[test]
fn all_in_takes_the_whole_balance() {
    assert_eq!(Amount::FRACTION(1, 1).resolve(100).unwrap(), 100);
    assert_eq!(Amount::FRACTION(1, 1).resolve(u64::MAX).unwrap(), u64::MAX);
}

#[test]
fn fraction_rounds_up() {
    assert_eq!(Amount::FRACTION(1, 2).resolve(100).unwrap(), 50);
    assert_eq!(Amount::FRACTION(1, 3).resolve(10).unwrap(), 4);
    assert_eq!(Amount::FRACTION(1, 1000).resolve(1).unwrap(), 1);
}

#[test]
fn fraction_rounding_to_zero_is_refused() {
    assert!(matches!(Amount::FRACTION(1, 2).resolve(0), Err(BetError::NotEnoughMoney)));
    assert!(matches!(Amount::FRACTION(0, 5).resolve(100), Err(BetError::NotEnoughMoney)));
}

#[test]
fn flat_above_balance_is_refused() {
    assert!(matches!(Amount::FLAT(101).resolve(100), Err(BetError::NotEnoughMoney)));
    assert_eq!(Amount::FLAT(100).resolve(100).unwrap(), 100);
}

#[test]
fn bad_fractions_are_refused() {
    assert!(matches!(Amount::FRACTION(3, 2).resolve(100), Err(BetError::NotEnoughMoney)));
    assert!(matches!(Amount::FRACTION(1, 0).resolve(100), Err(BetError::ParseError)));
}

#[test]
fn parse_flat_and_percent() {
    assert!(matches!(Amount::parse("40"), Ok(Amount::FLAT(40))));
    assert!(matches!(Amount::parse("  7\n"), Ok(Amount::FLAT(7))));
    assert!(matches!(Amount::parse("50%"), Ok(Amount::FRACTION(50, 100))));
    assert!(matches!(Amount::parse(" 12.5% "), Ok(Amount::FRACTION(125, 1000))));
    assert!(matches!(Amount::parse("100%"), Ok(Amount::FRACTION(100, 100))));
    assert!(matches!(Amount::parse(".5%"), Ok(Amount::FRACTION(5, 1000))));
    assert!(matches!(Amount::parse("18446744073709551615"), Ok(Amount::FLAT(u64::MAX))));
}

#[test]
fn parse_errors() {
    for s in ["", "  ", "abc", "%", ".%", "1.2.3%", "4.5", "-3", "18446744073709551616", "1x%"] {
        assert!(matches!(Amount::parse(s), Err(BetError::ParseError)), "{}", s);
    }
}

#[test]
fn parsed_percent_resolves() {
    let a = Amount::parse("50%").unwrap();
    assert_eq!(a.resolve(100).unwrap(), 50);
}
