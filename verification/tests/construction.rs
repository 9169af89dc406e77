use bigint::{add, BigInt};

fn parse(text: &str) -> BigInt {
    BigInt::from_decimal_text(text).unwrap()
}

#[test]
fn it_works() {
    println!("vec------: {:?}", vec![10, 1]);
    let result = add(2, 2);
    assert_eq!(result, 4);
}

#[test]
fn from_i64() {
    let v = BigInt::from_i64(1002323809800980);
    for (i, &n) in [809800980, 1002323].iter().enumerate() {
        assert_eq!(n, v.digits()[i]);
    }
}

#[test]
fn add_of_words_is_exact_at_the_top() {
    assert_eq!(add(u64::MAX - 1, 1), u64::MAX);
    assert_eq!(add(0, 0), 0);
}

#[test]
fn zero_has_no_limbs_and_no_sign() {
    let z = BigInt::zero();
    assert!(z.digits().is_empty());
    assert!(!z.is_negative());
    assert!(z.is_zero());
}

#[test]
fn one_is_a_single_limb() {
    let o = BigInt::one();
    assert_eq!(o.digits(), &vec![1u32]);
    assert!(!o.is_negative());
    assert!(!o.is_zero());
}

#[test]
fn from_i64_concrete_limbs_and_text() {
    let v = BigInt::from_i64(1002323809800980);
    assert_eq!(v.digits(), &vec![809800980u32, 1002323]);
    assert!(!v.is_negative());
    assert_eq!(v.to_decimal_text(), "1002323809800980");
}

#[test]
fn from_i64_zero_is_canonical_zero() {
    let z = BigInt::from_i64(0);
    assert!(z.digits().is_empty());
    assert!(!z.is_negative());
    assert_eq!(z, BigInt::zero());
}

#[test]
fn from_i64_negative_sets_the_sign() {
    let v = BigInt::from_i64(-5);
    assert!(v.is_negative());
    assert_eq!(v.digits(), &vec![5u32]);
}

#[test]
fn from_i64_at_limb_boundaries() {
    assert_eq!(BigInt::from_i64(999_999_999).digits(), &vec![999_999_999u32]);
    assert_eq!(BigInt::from_i64(1_000_000_000).digits(), &vec![0u32, 1]);
    assert_eq!(BigInt::from_i64(1_000_000_001).digits(), &vec![1u32, 1]);
    assert_eq!(
        BigInt::from_i64(1_000_000_000_000_000_000).digits(),
        &vec![0u32, 0, 1]
    );
}

#[test]
fn from_i64_minimum_does_not_overflow() {
    let v = BigInt::from_i64(i64::MIN);
    assert!(v.is_negative());
    assert_eq!(v.digits(), &vec![854775808u32, 223372036, 9]);
    assert_eq!(v.to_decimal_text(), "-9223372036854775808");
}

#[test]
fn from_i64_maximum() {
    let v = BigInt::from_i64(i64::MAX);
    assert!(!v.is_negative());
    assert_eq!(v.digits(), &vec![854775807u32, 223372036, 9]);
    assert_eq!(v.to_decimal_text(), "9223372036854775807");
}

#[test]
fn canonical_zero_from_every_constructor() {
    let zero = BigInt::zero();
    assert_eq!(BigInt::from_i64(0), zero);
    assert_eq!(parse("0"), zero);
    assert_eq!(parse("-0"), zero);
    assert_eq!(parse("+0"), zero);
    assert_eq!(parse("000"), zero);
    assert_eq!(parse("-0000000000000000000000"), zero);
    assert!(!parse("-0").is_negative());
    assert!(parse("-0").digits().is_empty());
}

#[test]
fn normalize_leaves_a_canonical_value_as_it_is() {
    for v in [0i64, 1, -1, 999_999_999, 1_000_000_000, i64::MIN, i64::MAX] {
        let n = BigInt::from_i64(v);
        let again = n.clone().normalize();
        assert_eq!(again, n);
        assert_eq!(again.digits(), n.digits());
        assert_eq!(again.is_negative(), n.is_negative());
    }
    let big = parse("-123456789012345678901234567890");
    assert_eq!(big.clone().normalize(), big);
}

#[test]
fn clone_keeps_sign_and_limbs() {
    let n = parse("-123456789012345678901234567890");
    let c = n.clone();
    assert_eq!(c.digits(), n.digits());
    assert_eq!(c.is_negative(), n.is_negative());
    assert!(c == n);
    assert!(c != BigInt::from_i64(7));
}
