use bigint::{BigInt, ParseError};

fn parse(text: &str) -> BigInt {
    BigInt::from_decimal_text(text).unwrap()
}

#[test]
fn parse_failures() {
    assert_eq!(BigInt::from_decimal_text("").unwrap_err(), ParseError);
    assert_eq!(BigInt::from_decimal_text("-").unwrap_err(), ParseError);
    assert_eq!(BigInt::from_decimal_text("12a3").unwrap_err(), ParseError);
}

#[test]
fn parse_rejects_a_sign_without_digits() {
    assert!(BigInt::from_decimal_text("+").is_err());
    assert!(BigInt::from_decimal_text("-").is_err());
}

#[test]
fn parse_rejects_stray_characters() {
    for text in [
        " 1", "1 ", "--1", "+-1", "1-", "1+1", "-+", "0x10", "1.5", "1e3", "१२", "１２", "12é",
        "\n", "1_000",
    ] {
        assert!(BigInt::from_decimal_text(text).is_err(), "{:?}", text);
    }
}

#[test]
fn parse_reads_signs() {
    assert_eq!(parse("+42"), BigInt::from_i64(42));
    assert_eq!(parse("-42"), BigInt::from_i64(-42));
    assert_eq!(parse("42"), BigInt::from_i64(42));
}

#[test]
fn parse_ignores_leading_zeros() {
    assert_eq!(parse("007"), BigInt::from_i64(7));
    assert_eq!(parse("-0000000000000000000000000007"), BigInt::from_i64(-7));
    assert_eq!(parse("0000000001000000000"), BigInt::from_i64(1_000_000_000));
    assert_eq!(parse("000000000000000000"), BigInt::zero());
}

#[test]
fn parse_groups_nine_digits_per_limb() {
    assert_eq!(parse("999999999").digits(), &vec![999_999_999u32]);
    assert_eq!(parse("1000000000").digits(), &vec![0u32, 1]);
    assert_eq!(parse("123456789").digits(), &vec![123_456_789u32]);
    assert_eq!(parse("1234567890").digits(), &vec![234_567_890u32, 1]);
    assert_eq!(
        parse("123456789012345678").digits(),
        &vec![12_345_678u32, 123_456_789]
    );
    assert_eq!(
        parse("1234567890123456789").digits(),
        &vec![123_456_789u32, 234_567_890, 1]
    );
    assert_eq!(
        parse("123456789012345678901234567890").digits(),
        &vec![234_567_890u32, 345_678_901, 456_789_012, 123]
    );
}

#[test]
fn text_pads_the_lower_limbs_with_zeros() {
    assert_eq!(BigInt::from_i64(1_000_000_005).to_decimal_text(), "1000000005");
    assert_eq!(BigInt::from_i64(1_000_000_000).to_decimal_text(), "1000000000");
    assert_eq!(
        BigInt::from_i64(7_000_000_000_000_000_001).to_decimal_text(),
        "7000000000000000001"
    );
    assert_eq!(
        BigInt::from_i64(-1_000_000_000_000_000_000).to_decimal_text(),
        "-1000000000000000000"
    );
}

#[test]
fn text_of_small_values() {
    assert_eq!(BigInt::zero().to_decimal_text(), "0");
    assert_eq!(BigInt::one().to_decimal_text(), "1");
    assert_eq!(BigInt::from_i64(-1).to_decimal_text(), "-1");
    assert_eq!(BigInt::from_i64(10).to_decimal_text(), "10");
    assert_eq!(BigInt::from_i64(999_999_999).to_decimal_text(), "999999999");
    assert_eq!(BigInt::from_i64(-120).to_decimal_text(), "-120");
}

#[test]
fn text_round_trip_of_native_integers() {
    for v in [
        0i64,
        1,
        -1,
        9,
        10,
        -10,
        999_999_999,
        1_000_000_000,
        -1_000_000_000,
        1002323809800980,
        123_456_789_012_345_678,
        i64::MAX,
        i64::MIN,
        i64::MIN + 1,
    ] {
        let n = BigInt::from_i64(v);
        let text = n.to_decimal_text();
        assert_eq!(text, v.to_string());
        let back = BigInt::from_decimal_text(&text).unwrap();
        assert_eq!(back, n);
        assert!(back.equals(&n));
    }
}

#[test]
fn text_round_trip_of_large_numerals() {
    for text in [
        "123456789012345678901234567890",
        "-987654321098765432109876543210",
        "1000000000000000000000000000000000000000000000",
        "-1000000000000000000000000000000000000000000001",
        "1606938044258990275541962092341162602522202993782792835301376",
    ] {
        assert_eq!(parse(text).to_decimal_text(), text);
    }
}

#[test]
fn text_drops_a_plus_sign_and_leading_zeros() {
    assert_eq!(parse("+0012").to_decimal_text(), "12");
    assert_eq!(parse("-000").to_decimal_text(), "0");
}
