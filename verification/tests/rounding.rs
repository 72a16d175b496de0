use bigdecimalmath::decimal::Decimal;
use bigdecimalmath::integer::Integer;
use bigdecimalmath::power_of_ten::{big_ten_to_the, PowerCache, LONG_TEN_POWERS_TABLE};
use bigdecimalmath::rounding::{
    check_scale_non_zero, compare_half, divide_and_round_bigint, divide_and_round_by_ten_pow,
    divide_and_round_i64, do_round,
};
use num_bigint::{BigInt, Sign};
use std::str::FromStr;

fn integer(text: &str) -> Integer {
    let (sign, digits) = BigInt::from_str(text).unwrap().to_u32_digits();
    Integer::from_parts(sign == Sign::Minus, digits)
}

fn bigint(value: &Integer) -> BigInt {
    let sign = if value.is_negative() { Sign::Minus } else { Sign::Plus };
    BigInt::from_slice(sign, value.magnitude())
}

#[test]
fn temp_test() {
    let a = integer("100000000000000976996261670137755572795867919921875");
    let b = integer("1000000000000000000000000000000000000000000000000000");
    let half = compare_half(&a, &b);
    println!("half answer: {:?}", half);
    assert_eq!(half, -1);
}

#[test]
fn compare_half_of_zero() {
    assert_eq!(compare_half(&integer("0"), &integer("0")), 0);
    assert_eq!(compare_half(&integer("0"), &integer("1")), -1);
    assert_eq!(compare_half(&integer("1"), &integer("0")), 1);
}

#[test]
fn compare_half_within_one_digit() {
    assert_eq!(compare_half(&integer("4"), &integer("9")), -1);
    assert_eq!(compare_half(&integer("4"), &integer("8")), 0);
    assert_eq!(compare_half(&integer("5"), &integer("9")), 1);
    assert_eq!(compare_half(&integer("2147483647"), &integer("4294967295")), -1);
    assert_eq!(compare_half(&integer("2147483648"), &integer("4294967295")), 1);
}

#[test]
fn compare_half_across_digit_boundaries() {
    // 2^32 and 2^33: the divisor has one digit more, with 1 and 2 on top
    assert_eq!(compare_half(&integer("2147483648"), &integer("4294967296")), 0);
    assert_eq!(compare_half(&integer("2147483647"), &integer("4294967296")), -1);
    assert_eq!(compare_half(&integer("2147483649"), &integer("4294967296")), 1);
    assert_eq!(compare_half(&integer("4294967295"), &integer("8589934592")), -1);
    assert_eq!(compare_half(&integer("4294967296"), &integer("8589934592")), 0);
    assert_eq!(compare_half(&integer("4294967297"), &integer("8589934592")), 1);
    // lengths further apart
    assert_eq!(compare_half(&integer("7"), &integer("36893488147419103232")), -1);
    assert_eq!(compare_half(&integer("36893488147419103232"), &integer("7")), 1);
    assert_eq!(compare_half(&integer("36893488147419103232"), &integer("4294967296")), 1);
}

#[test]
fn compare_half_carries_the_odd_bit_down() {
    // b = 3 * 2^32 + 1 is odd: its half is 1.5 * 2^32 + 0.5
    let b = integer("12884901889");
    assert_eq!(compare_half(&integer("6442450944"), &b), -1);
    assert_eq!(compare_half(&integer("6442450945"), &b), 1);
    // b = 2^64 + 2: half is 2^63 + 1
    let b = integer("18446744073709551618");
    assert_eq!(compare_half(&integer("9223372036854775808"), &b), -1);
    assert_eq!(compare_half(&integer("9223372036854775809"), &b), 0);
    assert_eq!(compare_half(&integer("9223372036854775810"), &b), 1);
}

#[test]
fn compare_half_ignores_the_signs() {
    assert_eq!(compare_half(&integer("-5"), &integer("9")), 1);
    assert_eq!(compare_half(&integer("5"), &integer("-10")), 0);
    assert_eq!(compare_half(&integer("-4"), &integer("-9")), -1);
}

#[test]
fn compare_half_agrees_with_doubling() {
    let values = [
        "1", "2", "3", "4294967295", "4294967296", "4294967297", "8589934591", "8589934592",
        "18446744073709551615", "18446744073709551616", "36893488147419103231",
        "340282366920938463463374607431768211456", "170141183460469231731687303715884105728",
        "170141183460469231731687303715884105727", "99999999999999999999999999999999999",
    ];
    for a in values {
        for b in values {
            let doubled: BigInt = BigInt::from_str(a).unwrap() * BigInt::from(2);
            let expected = match doubled.cmp(&BigInt::from_str(b).unwrap()) {
                std::cmp::Ordering::Less => -1,
                std::cmp::Ordering::Equal => 0,
                std::cmp::Ordering::Greater => 1,
            };
            assert_eq!(compare_half(&integer(a), &integer(b)), expected, "{} against {}", a, b);
        }
    }
}

#[test]
fn check_scale_non_zero_accepts_what_fits_32_bits() {
    assert_eq!(check_scale_non_zero(0), Ok(0));
    assert_eq!(check_scale_non_zero(-17), Ok(-17));
    assert_eq!(check_scale_non_zero(2147483647), Ok(i32::MAX));
    assert_eq!(check_scale_non_zero(-2147483648), Ok(i32::MIN));
    assert_eq!(check_scale_non_zero(2147483648).unwrap_err().description(), "scale out of range");
    assert_eq!(check_scale_non_zero(-2147483649).unwrap_err().description(), "scale out of range");
    assert!(check_scale_non_zero(i64::MAX).is_err());
    assert!(check_scale_non_zero(i64::MIN).is_err());
}

#[test]
fn divide_and_round_i64_rounds_to_the_nearest() {
    assert_eq!(divide_and_round_i64(integer("1794"), 10), integer("179"));
    assert_eq!(divide_and_round_i64(integer("1795"), 10), integer("180"));
    assert_eq!(divide_and_round_i64(integer("1796"), 10), integer("180"));
    assert_eq!(divide_and_round_i64(integer("-1794"), 10), integer("-179"));
    assert_eq!(divide_and_round_i64(integer("-1795"), 10), integer("-180"));
    assert_eq!(divide_and_round_i64(integer("1795"), -10), integer("-180"));
    assert_eq!(divide_and_round_i64(integer("-1795"), -10), integer("180"));
    assert_eq!(divide_and_round_i64(integer("4"), 10), integer("0"));
    assert_eq!(divide_and_round_i64(integer("-4"), 10), integer("0"));
    assert_eq!(divide_and_round_i64(integer("5"), 10), integer("1"));
    assert_eq!(divide_and_round_i64(integer("-5"), 10), integer("-1"));
    assert_eq!(divide_and_round_i64(integer("0"), 7), integer("0"));
    assert_eq!(divide_and_round_i64(integer("7"), 1), integer("7"));
    assert_eq!(
        divide_and_round_i64(integer("123456789012345678901234567890"), 1000000000000000000),
        integer("123456789012")
    );
    assert_eq!(
        divide_and_round_i64(integer("123456789012500000000000000000"), 1000000000000000000),
        integer("123456789013")
    );
    assert_eq!(
        divide_and_round_i64(integer("9223372036854775808"), i64::MIN),
        integer("-1")
    );
    assert_eq!(
        divide_and_round_i64(integer("4611686018427387904"), i64::MIN),
        integer("-1")
    );
    assert_eq!(
        divide_and_round_i64(integer("4611686018427387903"), i64::MIN),
        integer("0")
    );
}

#[test]
fn divide_and_round_bigint_rounds_to_the_nearest() {
    let divisor = "100000000000000000000";
    assert_eq!(
        divide_and_round_bigint(integer("1234567890123456789012345"), integer(divisor)),
        integer("12346")
    );
    assert_eq!(
        divide_and_round_bigint(integer("1234549999999999999999999"), integer(divisor)),
        integer("12345")
    );
    assert_eq!(
        divide_and_round_bigint(integer("1234550000000000000000000"), integer(divisor)),
        integer("12346")
    );
    assert_eq!(
        divide_and_round_bigint(integer("-1234550000000000000000000"), integer(divisor)),
        integer("-12346")
    );
    assert_eq!(
        divide_and_round_bigint(integer("1234550000000000000000000"), integer("-100000000000000000000")),
        integer("-12346")
    );
    assert_eq!(
        divide_and_round_bigint(integer("49999999999999999999"), integer(divisor)),
        integer("0")
    );
    assert_eq!(
        divide_and_round_bigint(integer("-50000000000000000000"), integer(divisor)),
        integer("-1")
    );
    assert_eq!(divide_and_round_bigint(integer("7"), integer("2")), integer("4"));
    assert_eq!(divide_and_round_bigint(integer("7"), integer("3")), integer("2"));
    assert_eq!(divide_and_round_bigint(integer("0"), integer("3")), integer("0"));
}

#[test]
fn divide_and_round_by_ten_pow_uses_table_and_cache() {
    let mut cache = PowerCache::new();
    assert_eq!(divide_and_round_by_ten_pow(integer("12345"), 0, &mut cache), integer("12345"));
    assert_eq!(divide_and_round_by_ten_pow(integer("12345"), 1, &mut cache), integer("1235"));
    assert_eq!(divide_and_round_by_ten_pow(integer("12345"), 2, &mut cache), integer("123"));
    assert_eq!(divide_and_round_by_ten_pow(integer("-12355"), 1, &mut cache), integer("-1236"));
    assert_eq!(divide_and_round_by_ten_pow(integer("12345"), 5, &mut cache), integer("0"));
    assert_eq!(divide_and_round_by_ten_pow(integer("50000"), 5, &mut cache), integer("1"));
    assert_eq!(
        divide_and_round_by_ten_pow(integer("1500000000000000000"), 18, &mut cache),
        integer("2")
    );
    assert_eq!(
        divide_and_round_by_ten_pow(integer("15000000000000000000000"), 17, &mut cache),
        integer("150000")
    );
    assert_eq!(cache.len(), 19);
    assert_eq!(
        divide_and_round_by_ten_pow(integer("14999999999999999999"), 19, &mut cache),
        integer("1")
    );
    assert_eq!(cache.len(), 38);
    assert_eq!(
        divide_and_round_by_ten_pow(integer("-15000000000000000000"), 19, &mut cache),
        integer("-2")
    );
    let big = format!("25{}", "0".repeat(59));
    assert_eq!(divide_and_round_by_ten_pow(integer(&big), 60, &mut cache), integer("3"));
    assert_eq!(cache.len(), 76);
}

#[test]
fn long_table_holds_the_powers_of_ten() {
    let mut power: i64 = 1;
    for k in 0..19 {
        assert_eq!(LONG_TEN_POWERS_TABLE[k], power);
        if k < 18 {
            power *= 10;
        }
    }
    assert_eq!(LONG_TEN_POWERS_TABLE[17], 100_000_000_000_000_000);
}

#[test]
fn big_ten_to_the_gives_exact_powers() {
    let mut cache = PowerCache::new();
    assert_eq!(big_ten_to_the(&mut cache, 0), integer("1"));
    assert_eq!(big_ten_to_the(&mut cache, 17), integer("100000000000000000"));
    assert_eq!(big_ten_to_the(&mut cache, 18), integer("1000000000000000000"));
    assert_eq!(cache.len(), 19);
    assert_eq!(big_ten_to_the(&mut cache, 20), integer("100000000000000000000"));
    assert_eq!(
        big_ten_to_the(&mut cache, 30),
        integer("1000000000000000000000000000000")
    );
    assert_eq!(bigint(&big_ten_to_the(&mut cache, 300)), BigInt::from(10).pow(300));
}

#[test]
fn big_ten_to_the_of_a_negative_exponent_is_zero() {
    let mut cache = PowerCache::new();
    assert_eq!(big_ten_to_the(&mut cache, -1), integer("0"));
    assert_eq!(big_ten_to_the(&mut cache, i32::MIN), integer("0"));
    assert_eq!(cache.len(), 19);
}

#[test]
fn cache_grows_by_doubling_and_never_shrinks() {
    let mut cache = PowerCache::new();
    assert_eq!(cache.len(), 19);
    big_ten_to_the(&mut cache, 18);
    assert_eq!(cache.len(), 19);
    big_ten_to_the(&mut cache, 19);
    assert_eq!(cache.len(), 38);
    big_ten_to_the(&mut cache, 37);
    assert_eq!(cache.len(), 38);
    big_ten_to_the(&mut cache, 200);
    assert_eq!(cache.len(), 304);
    big_ten_to_the(&mut cache, 3);
    assert_eq!(cache.len(), 304);
    assert_eq!(cache.get(303), Some(Integer::from_i64(10).power(303)));
    assert_eq!(cache.get(304), None);
}

#[test]
fn cache_answers_interleaved_queries() {
    let mut cache = PowerCache::new();
    let order = [5, 40, 3, 77, 76, 0, 150, 41, 149, 18, 19, 151];
    for round in 0..3 {
        for exponent in order {
            let expected = BigInt::from(10).pow(exponent as u32);
            assert_eq!(bigint(&big_ten_to_the(&mut cache, exponent)), expected, "round {}", round);
        }
    }
    for exponent in 0..cache.len() {
        let expected = BigInt::from(10).pow(exponent as u32);
        assert_eq!(bigint(&cache.get(exponent).unwrap()), expected);
    }
}

#[test]
fn do_round_keeps_the_asked_number_of_digits() {
    let mut cache = PowerCache::new();
    let value = Decimal::new(integer("1794"), 3);
    assert_eq!(do_round(&value, 3, &mut cache), Ok(Decimal::new(integer("179"), 2)));
    assert_eq!(do_round(&value, 2, &mut cache), Ok(Decimal::new(integer("18"), 1)));
    assert_eq!(do_round(&value, 1, &mut cache), Ok(Decimal::new(integer("2"), 0)));
    assert_eq!(do_round(&value, 4, &mut cache), Ok(Decimal::new(integer("1794"), 3)));
    assert_eq!(do_round(&value, 9, &mut cache), Ok(Decimal::new(integer("1794"), 3)));
    assert_eq!(do_round(&value, 0, &mut cache), Ok(Decimal::new(integer("1794"), 3)));
    assert_eq!(do_round(&value, -2, &mut cache), Ok(Decimal::new(integer("1794"), 3)));
    let value = Decimal::new(integer("-1795"), 3);
    assert_eq!(do_round(&value, 3, &mut cache), Ok(Decimal::new(integer("-180"), 2)));
}

#[test]
fn do_round_rounds_again_after_a_carry() {
    let mut cache = PowerCache::new();
    let value = Decimal::new(integer("9996"), 2);
    assert_eq!(do_round(&value, 3, &mut cache), Ok(Decimal::new(integer("100"), 0)));
    let value = Decimal::new(integer("-99"), 0);
    assert_eq!(do_round(&value, 1, &mut cache), Ok(Decimal::new(integer("-1"), -2)));
    let nines = "9".repeat(40);
    let value = Decimal::new(integer(&nines), 10);
    let expected = Decimal::new(integer("10000000000000000000"), -11);
    assert_eq!(do_round(&value, 20, &mut cache), Ok(expected));
}

#[test]
fn do_round_refuses_a_scale_beyond_32_bits() {
    let mut cache = PowerCache::new();
    let value = Decimal::new(integer("1794"), -2147483647);
    let result = do_round(&value, 2, &mut cache);
    assert_eq!(result.unwrap_err().description(), "scale out of range");
    let value = Decimal::new(integer("1794"), 2147483650);
    let result = do_round(&value, 2, &mut cache);
    assert_eq!(result.unwrap_err().description(), "scale out of range");
    let value = Decimal::new(integer("1794"), 2147483649);
    assert_eq!(do_round(&value, 2, &mut cache), Ok(Decimal::new(integer("18"), 2147483647)));
    let value = Decimal::new(integer("1794"), i64::MIN);
    assert!(do_round(&value, 2, &mut cache).is_err());
    let value = Decimal::new(integer("1794"), i64::MIN);
    assert_eq!(do_round(&value, 4, &mut cache), Ok(Decimal::new(integer("1794"), i64::MIN)));
}
