use matchbook::fixed_point::{
    format_price, format_quantity, parse_level, parse_levels, parse_price, parse_quantity,
    FixedPointError,
};

#[test]
fn parse_price_plain_decimals() {
    assert_eq!(parse_price("25.3519"), Ok(253519));
    assert_eq!(parse_price("0.0024"), Ok(24));
    assert_eq!(parse_price("31.21"), Ok(312100));
    assert_eq!(parse_price("1"), Ok(10000));
    assert_eq!(parse_price("0"), Ok(0));
    assert_eq!(parse_price("007"), Ok(70000));
    assert_eq!(parse_price("-1.5"), Ok(-15000));
    assert_eq!(parse_price("-0.0001"), Ok(-1));
}

#[test]
fn parse_price_rounds_half_away_from_zero() {
    assert_eq!(parse_price("1.23456"), Ok(12346));
    assert_eq!(parse_price("1.23454"), Ok(12345));
    assert_eq!(parse_price("1.23455"), Ok(12346));
    assert_eq!(parse_price("0.00005"), Ok(1));
    assert_eq!(parse_price("0.000049999"), Ok(0));
    assert_eq!(parse_price("-1.23456"), Ok(-12346));
}

#[test]
fn parse_price_rejects_malformed() {
    assert_eq!(parse_price(""), Err(FixedPointError::MalformedNumber));
    assert_eq!(parse_price("-"), Err(FixedPointError::MalformedNumber));
    assert_eq!(parse_price("."), Err(FixedPointError::MalformedNumber));
    assert_eq!(parse_price(".5"), Err(FixedPointError::MalformedNumber));
    assert_eq!(parse_price("5."), Err(FixedPointError::MalformedNumber));
    assert_eq!(parse_price("1.2.3"), Err(FixedPointError::MalformedNumber));
    assert_eq!(parse_price("abc"), Err(FixedPointError::MalformedNumber));
    assert_eq!(parse_price("1e5"), Err(FixedPointError::MalformedNumber));
    assert_eq!(parse_price(" 1"), Err(FixedPointError::MalformedNumber));
    assert_eq!(parse_price("+1"), Err(FixedPointError::MalformedNumber));
}

#[test]
fn parse_price_rejects_out_of_range() {
    // The scaled value would exceed the signed 64-bit range.
    assert_eq!(
        parse_price("922337203685477.5808"),
        Err(FixedPointError::MalformedNumber)
    );
    assert_eq!(parse_price("922337203685477.5807"), Ok(i64::MAX));
    assert_eq!(
        parse_price("99999999999999999999999999"),
        Err(FixedPointError::MalformedNumber)
    );
}

#[test]
fn parse_quantity_rejects_sign() {
    assert_eq!(parse_quantity("31.21"), Ok(312100));
    assert_eq!(parse_quantity("-31.21"), Err(FixedPointError::MalformedNumber));
    assert_eq!(parse_quantity("0"), Ok(0));
}

#[test]
fn format_price_shortest_spelling() {
    assert_eq!(format_price(253519), "25.3519");
    assert_eq!(format_price(24), "0.0024");
    assert_eq!(format_price(-15000), "-1.5");
    assert_eq!(format_price(10000), "1");
    assert_eq!(format_price(0), "0");
    assert_eq!(format_price(200000), "20");
    assert_eq!(format_price(123450), "12.345");
}

#[test]
fn format_quantity_shortest_spelling() {
    assert_eq!(format_quantity(312100), "31.21");
    assert_eq!(format_quantity(406600), "40.66");
    assert_eq!(format_quantity(0), "0");
    assert_eq!(format_quantity(1), "0.0001");
}

// Parsing back what was formatted returns the integer unchanged.
#[test]
fn parse_format_round_trip() {
    let samples: Vec<i64> = vec![
        0,
        1,
        -1,
        24,
        10000,
        -10000,
        253519,
        123450,
        -123450,
        999999999,
        i64::MAX,
        -i64::MAX,
    ];
    for n in samples {
        assert_eq!(parse_price(&format_price(n)), Ok(n));
    }
    let qs: Vec<u64> = vec![0, 1, 24, 312100, u64::MAX];
    for q in qs {
        assert_eq!(parse_quantity(&format_quantity(q)), Ok(q));
    }
}

// Formatting back what was parsed returns the wire string up to
// trailing-zero normalization.
#[test]
fn format_parse_normalizes() {
    assert_eq!(format_price(parse_price("25.3519").unwrap()), "25.3519");
    assert_eq!(format_price(parse_price("20.00").unwrap()), "20");
    assert_eq!(format_price(parse_price("0.2400").unwrap()), "0.24");
}

#[test]
fn parse_level_pairs() {
    assert_eq!(parse_level("0.0024", "10"), Ok((24, 100000)));
    assert_eq!(
        parse_level("0.0024", "ten"),
        Err(FixedPointError::MalformedNumber)
    );
    let good = vec![
        ("0.0024".to_string(), "10".to_string()),
        ("0.0025".to_string(), "20".to_string()),
    ];
    assert_eq!(parse_levels(&good), Ok(vec![(24, 100000), (25, 200000)]));
    let bad = vec![
        ("0.0024".to_string(), "10".to_string()),
        ("x".to_string(), "20".to_string()),
    ];
    assert_eq!(parse_levels(&bad), Err(FixedPointError::MalformedNumber));
}
