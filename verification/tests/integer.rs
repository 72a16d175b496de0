use bigdecimalmath::integer::{size_of_i64, Integer};
use bigdecimalmath::magnitude::{compare, from_u64, to_u64, trimmed};
use num_bigint::{BigInt, Sign};
use std::str::FromStr;

fn integer(text: &str) -> Integer {
    let (sign, digits) = BigInt::from_str(text).unwrap().to_u32_digits();
    Integer::from_parts(sign == Sign::Minus, digits)
}

#[test]
fn magnitude_of_machine_words() {
    assert_eq!(from_u64(0), Vec::<u32>::new());
    assert_eq!(from_u64(7), vec![7]);
    assert_eq!(from_u64(4294967295), vec![4294967295]);
    assert_eq!(from_u64(4294967296), vec![0, 1]);
    assert_eq!(from_u64(112500000000), vec![830850304, 26]);
    assert_eq!(from_u64(u64::MAX), vec![u32::MAX, u32::MAX]);
    assert_eq!(to_u64(&vec![]), Some(0));
    assert_eq!(to_u64(&vec![830850304, 26]), Some(112500000000));
    assert_eq!(to_u64(&vec![u32::MAX, u32::MAX]), Some(u64::MAX));
    assert_eq!(to_u64(&vec![0, 0, 1]), None);
}

#[test]
fn trimmed_drops_the_leading_zeros() {
    assert_eq!(trimmed(vec![5, 0, 0]), vec![5]);
    assert_eq!(trimmed(vec![0, 0, 0]), Vec::<u32>::new());
    assert_eq!(trimmed(vec![0, 3]), vec![0, 3]);
    assert_eq!(trimmed(vec![]), Vec::<u32>::new());
}

#[test]
fn integer_from_parts_is_canonical() {
    assert_eq!(Integer::from_parts(true, vec![0, 0]), Integer::zero());
    assert_eq!(Integer::from_parts(false, vec![]), Integer::zero());
    assert_eq!(Integer::from_parts(true, vec![9, 0]), Integer::from_i64(-9));
    assert_eq!(Integer::from_parts(false, vec![0, 1]), Integer::from_i64(4294967296));
    assert!(!Integer::from_parts(true, vec![0]).is_negative());
    assert!(Integer::from_parts(true, vec![0]).is_zero());
}

#[test]
fn integer_from_machine_values() {
    assert_eq!(Integer::from_i64(0), integer("0"));
    assert_eq!(Integer::from_i64(-1), integer("-1"));
    assert_eq!(Integer::from_i64(i64::MAX), integer("9223372036854775807"));
    assert_eq!(Integer::from_i64(i64::MIN), integer("-9223372036854775808"));
    assert_eq!(Integer::one(), integer("1"));
    assert_eq!(size_of_i64(i64::MIN), 9223372036854775808);
    assert_eq!(size_of_i64(-5), 5);
    assert_eq!(size_of_i64(5), 5);
    assert_eq!(Integer::from_i64(-70000000000).magnitude(), &vec![1280523264, 16]);
}

#[test]
fn integer_product_of_machine_values() {
    let a = Integer::from_i64(-12);
    let b = Integer::from_i64(5_000_000_000);
    assert_eq!(a.times(&b), Integer::from_i64(-60_000_000_000));
    assert_eq!(b.times(&a), Integer::from_i64(-60_000_000_000));
    assert_eq!(a.times(&a), Integer::from_i64(144));
    assert_eq!(a.times(&Integer::zero()), Integer::zero());
    assert!(!a.times(&Integer::zero()).is_negative());
    assert_eq!(
        integer("123456789012345678901234567890").times(&integer("-98765432109876543210")),
        integer("-12193263113702179522496570642237463801111263526900")
    );
}

#[test]
fn integer_power_keeps_the_sign_of_odd_exponents() {
    assert_eq!(Integer::from_i64(-2).power(3), Integer::from_i64(-8));
    assert_eq!(Integer::from_i64(-2).power(4), Integer::from_i64(16));
    assert_eq!(Integer::from_i64(-2).power(0), Integer::from_i64(1));
    assert_eq!(Integer::from_i64(0).power(0), Integer::from_i64(1));
    assert_eq!(Integer::from_i64(0).power(5), Integer::from_i64(0));
    assert_eq!(Integer::from_i64(10).power(30), integer("1000000000000000000000000000000"));
    assert_eq!(Integer::from_i64(-7).power(25), integer("-1341068619663964900807"));
}

#[test]
fn integer_counts_its_decimal_digits() {
    assert_eq!(integer("0").decimal_digits(), 1);
    assert_eq!(integer("-9").decimal_digits(), 1);
    assert_eq!(integer("10").decimal_digits(), 2);
    assert_eq!(integer("-4294967296").decimal_digits(), 10);
    assert_eq!(integer("100000000000000976996261670137755572795867919921875").decimal_digits(), 51);
}

#[test]
fn integer_size_and_copy() {
    let value = integer("-340282366920938463463374607431768211456");
    assert_eq!(value.abs(), integer("340282366920938463463374607431768211456"));
    assert_eq!(value.duplicate(), value);
    assert_eq!(value.clone(), value);
    assert_eq!(value.magnitude(), &vec![0, 0, 0, 0, 1]);
    assert!(value.is_negative());
    assert!(!value.abs().is_negative());
}

#[test]
fn compare_orders_magnitudes() {
    assert_eq!(compare(&vec![], &vec![]), 0);
    assert_eq!(compare(&vec![], &vec![1]), -1);
    assert_eq!(compare(&vec![1], &vec![]), 1);
    assert_eq!(compare(&vec![5], &vec![5]), 0);
    assert_eq!(compare(&vec![5], &vec![6]), -1);
    assert_eq!(compare(&vec![7, 1], &vec![9]), 1);
    assert_eq!(compare(&vec![9], &vec![0, 1]), -1);
    assert_eq!(compare(&vec![9, 3], &vec![1, 4]), -1);
    assert_eq!(compare(&vec![1, 4], &vec![9, 3]), 1);
    assert_eq!(compare(&vec![1, 4, 2], &vec![2, 4, 2]), -1);
    assert_eq!(compare(&vec![3, 4, 2], &vec![2, 4, 2]), 1);
    assert_eq!(compare(&vec![2, 4, 2], &vec![2, 4, 2]), 0);
}

#[test]
fn compare_sets_leading_zeros_aside() {
    assert_eq!(compare(&vec![5, 0, 0], &vec![5]), 0);
    assert_eq!(compare(&vec![0, 0], &vec![]), 0);
    assert_eq!(compare(&vec![5, 0], &vec![0, 1]), -1);
    assert_eq!(compare(&vec![0, 1, 0], &vec![u32::MAX]), 1);
}
