use orderbook::DecimalPair;

fn dp(int: u32, frac: u32) -> DecimalPair {
    DecimalPair { int, frac }
}

#[test]
fn parse_plain() {
    assert_eq!(DecimalPair::parse("123.456"), Some(dp(123, 456)));
    assert_eq!(DecimalPair::parse("0.0"), Some(dp(0, 0)));
    assert_eq!(DecimalPair::parse("1.2"), Some(dp(1, 2)));
    assert_eq!(DecimalPair::parse("100.00"), Some(dp(100, 0)));
    assert_eq!(DecimalPair::parse("007.5"), Some(dp(7, 5)));
}

#[test]
fn parse_extremes() {
    assert_eq!(
        DecimalPair::parse("4294967295.4294967295"),
        Some(dp(u32::MAX, u32::MAX))
    );
    assert_eq!(DecimalPair::parse("4294967296.0"), None);
    assert_eq!(DecimalPair::parse("0.4294967296"), None);
}

#[test]
fn parse_malformed() {
    assert_eq!(DecimalPair::parse(""), None);
    assert_eq!(DecimalPair::parse("12"), None);
    assert_eq!(DecimalPair::parse(".5"), None);
    assert_eq!(DecimalPair::parse("5."), None);
    assert_eq!(DecimalPair::parse("."), None);
    assert_eq!(DecimalPair::parse("1.2.3"), None);
    assert_eq!(DecimalPair::parse("1,5"), None);
    assert_eq!(DecimalPair::parse("a.5"), None);
    assert_eq!(DecimalPair::parse("1.5b"), None);
    assert_eq!(DecimalPair::parse("-1.5"), None);
    assert_eq!(DecimalPair::parse("1.\u{20ac}"), None);
}

#[test]
fn format_canonical() {
    assert_eq!(dp(123, 456).format(), "123.456");
    assert_eq!(dp(0, 0).format(), "0.0");
    assert_eq!(dp(100, 0).format(), "100.0");
    assert_eq!(dp(u32::MAX, 1).format(), "4294967295.1");
}

#[test]
fn round_trip_parse_then_format() {
    for s in ["123.456", "0.0", "1.2", "99.5", "4294967295.4294967295"] {
        let p = DecimalPair::parse(s).unwrap();
        assert_eq!(p.format(), s);
    }
}

#[test]
fn round_trip_format_then_parse() {
    for p in [dp(0, 0), dp(1, 2), dp(100, 5), dp(u32::MAX, u32::MAX)] {
        assert_eq!(DecimalPair::parse(&p.format()), Some(p));
    }
}

#[test]
fn canonicalization_drops_leading_zeros() {
    // "100.05" is not canonical: its value prints back as "100.5".
    let p = DecimalPair::parse("100.05").unwrap();
    assert_eq!(p, dp(100, 5));
    assert_eq!(p.format(), "100.5");
}

#[test]
fn ordering_is_lexicographic() {
    assert!(dp(99, 50).lt(&dp(100, 0)));
    assert!(dp(100, 0).lt(&dp(100, 50)));
    assert!(!dp(100, 0).lt(&dp(100, 0)));
    assert!(!dp(100, 50).lt(&dp(100, 0)));
}

#[test]
fn zero_sentinel() {
    assert!(dp(0, 0).is_zero());
    assert!(DecimalPair::zero().is_zero());
    assert!(!dp(0, 1).is_zero());
    assert!(!dp(1, 0).is_zero());
}
