use bigint::BigInt;

fn parse(text: &str) -> BigInt {
    BigInt::from_decimal_text(text).unwrap()
}

fn samples() -> Vec<BigInt> {
    [
        "0",
        "1",
        "-1",
        "999999999",
        "-1000000000",
        "1000000000000000000",
        "123456789012345678901234567890",
        "-987654321098765432109876543210",
        "99999999999999999999999999999999999999",
        "-9223372036854775808",
    ]
    .iter()
    .map(|t| parse(t))
    .collect()
}

#[test]
fn add_carries_across_limbs() {
    let a = parse("999999999999999999");
    let sum = a.add(&BigInt::one());
    assert_eq!(sum.digits(), &vec![0u32, 0, 1]);
    assert_eq!(sum.to_decimal_text(), "1000000000000000000");
}

#[test]
fn add_exact_values() {
    let a = parse("123456789012345678901234567890");
    let b = parse("987654321098765432109876543210");
    assert_eq!(a.add(&b).to_decimal_text(), "1111111110111111111011111111100");
    assert_eq!(
        a.add(&b).digits(),
        &vec![111111100u32, 111111011, 111110111, 1111]
    );
    assert_eq!(BigInt::from_i64(2).add(&BigInt::from_i64(2)), BigInt::from_i64(4));
}

#[test]
fn add_with_mixed_signs() {
    assert_eq!(BigInt::from_i64(5).add(&BigInt::from_i64(-7)), BigInt::from_i64(-2));
    assert_eq!(BigInt::from_i64(-5).add(&BigInt::from_i64(7)), BigInt::from_i64(2));
    assert_eq!(BigInt::from_i64(-5).add(&BigInt::from_i64(-7)), BigInt::from_i64(-12));
    assert_eq!(BigInt::from_i64(7).add(&BigInt::from_i64(-7)), BigInt::zero());
    let big = parse("1000000000000000000");
    assert_eq!(big.add(&BigInt::from_i64(-1)).to_decimal_text(), "999999999999999999");
}

#[test]
fn add_to_zero_clears_the_sign() {
    let sum = BigInt::from_i64(-7).add(&BigInt::from_i64(7));
    assert!(!sum.is_negative());
    assert!(sum.digits().is_empty());
}

#[test]
fn sub_borrows_across_limbs() {
    let a = parse("1000000000000000000");
    let d = a.sub(&BigInt::one());
    assert_eq!(d.digits(), &vec![999_999_999u32, 999_999_999]);
}

#[test]
fn sub_exact_values() {
    let a = parse("123456789012345678901234567890");
    let b = parse("987654321098765432109876543210");
    assert_eq!(b.sub(&a).to_decimal_text(), "864197532086419753208641975320");
    assert_eq!(a.sub(&b).to_decimal_text(), "-864197532086419753208641975320");
    assert_eq!(a.sub(&a), BigInt::zero());
}

#[test]
fn sub_with_every_sign_pair() {
    let f = BigInt::from_i64;
    assert_eq!(f(5).sub(&f(7)), f(-2));
    assert_eq!(f(7).sub(&f(5)), f(2));
    assert_eq!(f(-5).sub(&f(-7)), f(2));
    assert_eq!(f(-7).sub(&f(-5)), f(-2));
    assert_eq!(f(5).sub(&f(-7)), f(12));
    assert_eq!(f(-5).sub(&f(7)), f(-12));
    assert_eq!(f(0).sub(&f(7)), f(-7));
    assert_eq!(f(0).sub(&f(-7)), f(7));
    assert_eq!(f(7).sub(&f(0)), f(7));
    assert_eq!(f(-7).sub(&f(0)), f(-7));
    assert_eq!(f(0).sub(&f(0)), f(0));
}

#[test]
fn sub_reaches_past_the_native_range() {
    let min = BigInt::from_i64(i64::MIN);
    assert_eq!(
        BigInt::zero().sub(&min).to_decimal_text(),
        "9223372036854775808"
    );
    assert_eq!(
        min.sub(&BigInt::one()).to_decimal_text(),
        "-9223372036854775809"
    );
}

#[test]
fn mul_exact_values() {
    let a = parse("123456789012345678901234567890");
    let b = parse("987654321098765432109876543210");
    assert_eq!(
        a.mul(&b).to_decimal_text(),
        "121932631137021795226185032733622923332237463801111263526900"
    );
    assert_eq!(
        a.mul(&b).digits(),
        &vec![263526900u32, 463801111, 923332237, 32733622, 795226185, 631137021, 121932]
    );
}

#[test]
fn mul_of_the_largest_limbs() {
    let m = BigInt::from_i64(999_999_999);
    assert_eq!(m.mul(&m).digits(), &vec![1u32, 999_999_998]);
    let x = parse("99999999999999999999999999999999999999");
    let y = parse("99999999999999999999");
    assert_eq!(
        x.mul(&y).to_decimal_text(),
        "9999999999999999999899999999999999999900000000000000000001"
    );
}

#[test]
fn mul_sign_rule() {
    let f = BigInt::from_i64;
    assert_eq!(f(3).mul(&f(4)), f(12));
    assert_eq!(f(-3).mul(&f(4)), f(-12));
    assert_eq!(f(3).mul(&f(-4)), f(-12));
    assert_eq!(f(-3).mul(&f(-4)), f(12));
}

#[test]
fn mul_by_zero_is_canonical_zero() {
    let big = parse("-123456789012345678901234567890");
    let p = big.mul(&BigInt::zero());
    assert!(p.digits().is_empty());
    assert!(!p.is_negative());
    let q = BigInt::zero().mul(&big);
    assert!(q.digits().is_empty());
    assert!(!q.is_negative());
}

#[test]
fn mul_by_one_is_identity() {
    for a in samples() {
        assert_eq!(a.mul(&BigInt::one()), a);
        assert_eq!(BigInt::one().mul(&a), a);
    }
}

#[test]
fn mul_power_of_two() {
    let two = BigInt::from_i64(2);
    let mut p = BigInt::one();
    for _ in 0..200 {
        p = p.mul(&two);
    }
    assert_eq!(
        p.to_decimal_text(),
        "1606938044258990275541962092341162602522202993782792835301376"
    );
}

#[test]
fn add_and_mul_commute() {
    let all = samples();
    for a in &all {
        for b in &all {
            assert_eq!(a.add(b), b.add(a));
            assert_eq!(a.mul(b), b.mul(a));
            assert!(a.add(b).equals(&b.add(a)));
            assert!(a.mul(b).equals(&b.mul(a)));
        }
    }
}

#[test]
fn additive_inverse() {
    for a in samples() {
        let negated = BigInt::zero().sub(&a);
        let sum = a.add(&negated);
        assert_eq!(sum, BigInt::zero());
        assert!(sum.digits().is_empty());
        assert!(!sum.is_negative());
    }
}

#[test]
fn sub_undoes_add() {
    let all = samples();
    for a in &all {
        for b in &all {
            assert_eq!(a.add(b).sub(b), *a);
        }
    }
}
