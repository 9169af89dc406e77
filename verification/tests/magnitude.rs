use bigint::decimal::{append_limbs, append_number, append_padded};
use bigint::magnitude::{
    limbs_equal, mag_add, mag_divmod, mag_less, mag_mul, mag_mul_small, mag_sub, trim,
};

#[test]
fn trim_strips_trailing_zero_limbs() {
    assert_eq!(trim(vec![1, 0, 0]), vec![1]);
    assert_eq!(trim(vec![0, 0, 0]), Vec::<u32>::new());
    assert_eq!(trim(vec![0, 1]), vec![0, 1]);
    assert_eq!(trim(vec![]), Vec::<u32>::new());
    assert_eq!(trim(vec![0, 0, 5, 0]), vec![0, 0, 5]);
}

#[test]
fn trim_twice_is_trim_once() {
    for v in [vec![1u32, 0, 0], vec![0, 0], vec![3, 4], vec![]] {
        let once = trim(v);
        assert_eq!(trim(once.clone()), once);
    }
}

#[test]
fn limbs_equal_compares_every_limb() {
    assert!(limbs_equal(&vec![1, 2, 3], &vec![1, 2, 3]));
    assert!(!limbs_equal(&vec![1, 2, 3], &vec![1, 2, 4]));
    assert!(!limbs_equal(&vec![1, 2], &vec![1, 2, 0]));
    assert!(limbs_equal(&vec![], &vec![]));
}

#[test]
fn mag_less_orders_magnitudes() {
    assert!(mag_less(&vec![], &vec![1]));
    assert!(!mag_less(&vec![1], &vec![]));
    assert!(!mag_less(&vec![], &vec![]));
    assert!(mag_less(&vec![999_999_999], &vec![0, 1]));
    assert!(mag_less(&vec![5, 1], &vec![4, 2]));
    assert!(!mag_less(&vec![4, 2], &vec![5, 1]));
    assert!(mag_less(&vec![4, 2], &vec![5, 2]));
    assert!(!mag_less(&vec![5, 2], &vec![5, 2]));
}

#[test]
fn mag_add_lengths_and_carries() {
    assert_eq!(mag_add(&vec![999_999_999], &vec![1]), vec![0, 1]);
    assert_eq!(mag_add(&vec![999_999_999, 999_999_999], &vec![1]), vec![0, 0, 1]);
    assert_eq!(mag_add(&vec![1], &vec![999_999_999, 999_999_999]), vec![0, 0, 1]);
    assert_eq!(mag_add(&vec![1, 2], &vec![3]), vec![4, 2]);
    assert_eq!(mag_add(&vec![], &vec![]), Vec::<u32>::new());
    assert_eq!(mag_add(&vec![], &vec![7, 8]), vec![7, 8]);
    assert_eq!(
        mag_add(&vec![999_999_999, 999_999_999], &vec![999_999_999, 999_999_999]),
        vec![999_999_998, 999_999_999, 1]
    );
}

#[test]
fn mag_sub_borrows_and_trims() {
    assert_eq!(mag_sub(&vec![0, 1], &vec![1]), vec![999_999_999]);
    assert_eq!(mag_sub(&vec![0, 0, 1], &vec![1]), vec![999_999_999, 999_999_999]);
    assert_eq!(mag_sub(&vec![5, 7], &vec![5, 7]), Vec::<u32>::new());
    assert_eq!(mag_sub(&vec![5, 7], &vec![]), vec![5, 7]);
    assert_eq!(mag_sub(&vec![5, 7], &vec![6, 6]), vec![999_999_999]);
    assert_eq!(mag_sub(&vec![5, 7], &vec![0, 0, 0]), vec![5, 7]);
}

#[test]
fn mag_mul_small_carries() {
    assert_eq!(mag_mul_small(&vec![999_999_999], 999_999_999), vec![1, 999_999_998]);
    assert_eq!(mag_mul_small(&vec![5, 1], 2), vec![10, 2]);
    assert_eq!(trim(mag_mul_small(&vec![5, 1], 0)), Vec::<u32>::new());
    assert_eq!(mag_mul_small(&vec![], 7), Vec::<u32>::new());
    assert_eq!(mag_mul_small(&vec![500_000_000], 2), vec![0, 1]);
}

#[test]
fn mag_mul_schoolbook() {
    assert_eq!(
        mag_mul(&vec![999_999_999], &vec![999_999_999]),
        vec![1, 999_999_998]
    );
    assert_eq!(
        trim(mag_mul(
            &vec![234567890, 345678901, 456789012, 123],
            &vec![876543210, 765432109, 654321098, 987]
        )),
        vec![263526900, 463801111, 923332237, 32733622, 795226185, 631137021, 121932]
    );
    assert_eq!(trim(mag_mul(&vec![], &vec![1, 2])), Vec::<u32>::new());
    assert_eq!(trim(mag_mul(&vec![2], &vec![3])), vec![6]);
}

#[test]
fn mag_divmod_long_division() {
    let (q, r) = mag_divmod(&vec![876543210, 765432109, 654321098, 987], &vec![
        234567890, 345678901, 456789012, 123,
    ]);
    assert_eq!(q, vec![8]);
    assert_eq!(r, vec![90, 900, 9000]);
    let (q, r) = mag_divmod(&vec![7], &vec![0, 1]);
    assert_eq!(q, Vec::<u32>::new());
    assert_eq!(r, vec![7]);
    let (q, r) = mag_divmod(&vec![], &vec![3]);
    assert_eq!(q, Vec::<u32>::new());
    assert_eq!(r, Vec::<u32>::new());
    let (q, r) = mag_divmod(&vec![0, 0, 1], &vec![0, 1]);
    assert_eq!(q, vec![0, 1]);
    assert_eq!(r, Vec::<u32>::new());
}

#[test]
fn append_number_has_no_leading_zeros() {
    let mut out = String::from("x");
    append_number(&mut out, 0);
    append_number(&mut out, 7);
    append_number(&mut out, 120);
    append_number(&mut out, 4_294_967_295);
    assert_eq!(out, "x071204294967295");
}

#[test]
fn append_padded_writes_the_width() {
    let mut out = String::new();
    append_padded(&mut out, 5, 9);
    assert_eq!(out, "000000005");
    append_padded(&mut out, 123_456_789, 9);
    assert_eq!(out, "000000005123456789");
    append_padded(&mut out, 1234, 2);
    assert_eq!(out, "00000000512345678934");
    append_padded(&mut out, 1234, 0);
    assert_eq!(out, "00000000512345678934");
}

#[test]
fn append_limbs_writes_a_magnitude() {
    let mut out = String::from("-");
    append_limbs(&mut out, &vec![5, 0, 12]);
    assert_eq!(out, "-12000000000000000005");
}
