use bigdecimal::{BigDecimal, FromPrimitive, ToPrimitive};
use bigdecimalmath::decimal::{pow, Decimal};
use bigdecimalmath::BigDecimalMathError;
use bigdecimalmath::integer::Integer;
use bigdecimalmath::root;
use bigdecimalmath::root::{converged, err2prec, newton_step, MAX_ITERATIONS};
use num_bigint::{BigInt, Sign};
use std::str::FromStr;

fn to_decimal(value: &BigDecimal) -> Decimal {
    let (unscaled, scale) = value.as_bigint_and_exponent();
    let (sign, digits) = unscaled.to_u32_digits();
    Decimal::new(Integer::from_parts(sign == Sign::Minus, digits), scale)
}

fn to_bigdecimal(value: &Decimal) -> BigDecimal {
    let sign = if value.unscaled.is_negative() { Sign::Minus } else { Sign::Plus };
    BigDecimal::new(BigInt::from_slice(sign, value.unscaled.magnitude()), value.scale)
}

fn decimal(text: &str) -> Decimal {
    to_decimal(&BigDecimal::from_str(text).unwrap())
}

fn estimate(n: isize, x: &BigDecimal) -> Decimal {
    let guess = f64::powf(x.to_f64().unwrap(), 1.0 / (n as f64));
    to_decimal(&BigDecimal::from_f64(guess).unwrap())
}

fn root_of(n: isize, x: &str) -> Result<BigDecimal, BigDecimalMathError> {
    let x = BigDecimal::from_str(x).unwrap();
    root(n, to_decimal(&x), estimate(n, &x)).map(|value| to_bigdecimal(&value))
}

fn message(result: Result<Decimal, BigDecimalMathError>) -> String {
    match result {
        Ok(value) => panic!("expected an error, got {:?}", value),
        Err(error) => error.description(),
    }
}

#[test]
fn root_from_str_test() {
    let vals: Vec<(&str, isize, &str)> = vec![
        ("1.79", 1, "1.79"),
        ("1.73803", 4, "9.125"),
        ("1.562880129", 5, "9.3245600"),
        ("1.453573513976", 13, "129.32456087"),
        ("1.09280916443673520", 135, "159765.989751345"),
    ];

    vals.iter().for_each(|(expected_result, n, x)| {
        assert_eq!(
            Ok(BigDecimal::from_str(expected_result).unwrap()),
            root_of(*n, x)
        );
    });
}

#[test]
fn root_result_keeps_the_digits_after_the_point() {
    let value = root(4, decimal("9.125"), estimate(4, &BigDecimal::from_str("9.125").unwrap()))
        .unwrap();
    assert_eq!(value, decimal("1.73803"));
    assert_eq!(value.scale, 5);
}

#[test]
fn root_of_index_one_is_the_argument_itself() {
    for text in ["0", "1.79", "0.000", "12345678901234567890.123456789", "7E+3"] {
        let x = decimal(text);
        let seed = decimal("42");
        assert_eq!(root(1, x.clone(), seed), Ok(x));
    }
}

#[test]
fn root_refuses_a_negative_argument() {
    for n in [-3isize, 0, 1, 2, 7] {
        let result = root(n, decimal("-0.5"), decimal("1"));
        assert_eq!(message(result), "negative argument of root");
    }
}

#[test]
fn root_refuses_an_index_below_one() {
    for n in [0isize, -1, -135, isize::MIN] {
        let result = root(n, decimal("9.125"), decimal("1.7"));
        assert_eq!(message(result), "negative power of root");
    }
}

#[test]
fn root_refuses_an_index_whose_power_is_out_of_range() {
    let result = root(1_000_000_001, decimal("9.125"), decimal("1"));
    assert_eq!(message(result), "Invalid power operation");
}

#[test]
fn root_fails_where_the_approximation_is_zero() {
    let result = root(2, decimal("0"), decimal("0"));
    assert_eq!(message(result), "division by zero");
    let result = root(3, decimal("8"), decimal("0.00"));
    assert_eq!(message(result), "division by zero");
}

#[test]
fn root_fails_where_a_scale_leaves_the_range() {
    let x = Decimal::new(Integer::from_i64(5), i64::MAX);
    assert_eq!(message(root(2, x, decimal("1"))), "scale out of range");
    let x = Decimal::new(Integer::from_i64(5), i64::MAX - 1);
    assert_eq!(message(root(2, x, decimal("1"))), "scale out of range");
    let seed = Decimal::new(Integer::from_i64(5), -(1 << 62));
    assert_eq!(message(root(3, decimal("8"), seed)), "scale out of range");
    let seed = Decimal::new(Integer::from_i64(5), 1 << 62);
    assert_eq!(message(root(4, decimal("8"), seed)), "scale out of range");
}

#[test]
fn root_works_at_a_wide_scale() {
    // 1.7E-2305843009213693952 has the square root 1.30E-1152921504606846976
    let x = Decimal::new(Integer::from_i64(17), (1 << 61) + 1);
    let seed = Decimal::new(Integer::from_i64(13), (1 << 60) + 1);
    let found = root(2, x, seed).unwrap();
    assert_eq!(found.scale, 2);
    assert_eq!(found.unscaled, Integer::zero());
}

#[test]
fn root_gives_up_after_the_allowed_number_of_steps() {
    assert_eq!(MAX_ITERATIONS, 1_000);
    let seed = Decimal::new(Integer::from_i64(1), -400);
    let result = root(2, decimal("2"), seed);
    assert_eq!(message(result), "root iteration did not converge");
}

#[test]
fn root_recovers_the_base_of_a_power() {
    let cases: Vec<(&str, i32)> = vec![
        ("3", 2),
        ("1.5", 3),
        ("12.25", 4),
        ("0.007", 5),
        ("2", 10),
        ("123456.789", 7),
    ];
    for (text, n) in cases {
        let x = decimal(text);
        let power = pow(&x, n).unwrap();
        let seed = estimate(n as isize, &to_bigdecimal(&power));
        let found = to_bigdecimal(&root(n as isize, power, seed).unwrap());
        let wanted = BigDecimal::from_str(text).unwrap();
        let unit = BigDecimal::new(BigInt::from(1), x.scale);
        assert!((&found - &wanted).abs() <= unit, "{} against {}", found, wanted);
    }
}

#[test]
fn root_of_a_square_from_a_rough_seed() {
    let result = root(2, decimal("2.0000"), decimal("1")).unwrap();
    assert_eq!(to_bigdecimal(&result), BigDecimal::from_str("1.41421").unwrap());
    let result = root(2, decimal("1522756"), decimal("1000")).unwrap();
    assert_eq!(to_bigdecimal(&result), BigDecimal::from_str("1234").unwrap());
}

#[test]
fn err2prec_counts_the_digits_of_index_times_unscaled() {
    assert_eq!(err2prec(4, &decimal("9.125")), 5);
    assert_eq!(err2prec(5, &decimal("9.3245600")), 9);
    assert_eq!(err2prec(13, &decimal("129.32456087")), 12);
    assert_eq!(err2prec(135, &decimal("159765.989751345")), 17);
    assert_eq!(err2prec(2, &decimal("0")), 1);
    assert_eq!(err2prec(1, &decimal("9")), 1);
    assert_eq!(err2prec(2, &decimal("5")), 2);
    assert_eq!(err2prec(-2, &decimal("-49.9")), 3);
}

#[test]
fn newton_step_moves_towards_the_root() {
    let x = decimal("2.00");
    let xhighpr = decimal("2.0000");
    let (correction, next) = newton_step(&decimal("1.5"), &xhighpr, 2, 5).unwrap();
    // 2 / 1.5 = 1.3333 at five digits; (1.5 - 1.3333) / 2 = 0.08335, kept at
    // the four digits of the difference 0.1667
    assert_eq!(to_bigdecimal(&correction), BigDecimal::from_str("0.08335").unwrap());
    assert_eq!(correction.unscaled, Integer::from_i64(8335));
    assert_eq!(to_bigdecimal(&next), BigDecimal::from_str("1.41665").unwrap());
    assert_eq!(converged(&correction, &next, &x, 2), Ok(false));
}

#[test]
fn newton_step_fails_on_a_zero_approximation() {
    let result = newton_step(&decimal("0"), &decimal("2.0000"), 2, 5);
    assert_eq!(result.unwrap_err().description(), "division by zero");
}

#[test]
fn converged_compares_the_correction_with_the_tolerance() {
    // tolerance for x = 2.00 and n = 2: 0.01 / (2 * 2 * 2.00) = 0.00125
    let x = decimal("2.00");
    assert_eq!(converged(&decimal("0.00124"), &decimal("1"), &x, 2), Ok(true));
    assert_eq!(converged(&decimal("-0.00124"), &decimal("1"), &x, 2), Ok(true));
    assert_eq!(converged(&decimal("0.00125"), &decimal("1"), &x, 2), Ok(false));
    assert_eq!(converged(&decimal("0.00126"), &decimal("-1"), &x, 2), Ok(false));
    assert_eq!(converged(&decimal("0.0025"), &decimal("2.0001"), &x, 2), Ok(true));
    assert_eq!(converged(&decimal("0"), &decimal("0.1"), &decimal("0"), 3), Ok(true));
    let failed = converged(&decimal("0.1"), &decimal("0.000"), &x, 2);
    assert_eq!(failed.unwrap_err().description(), "division by zero");
    let far = Decimal::new(Integer::from_i64(1), i64::MIN);
    assert_eq!(converged(&decimal("0.1"), &far, &x, 2), Ok(true));
    let near = Decimal::new(Integer::from_i64(1), i64::MAX);
    assert_eq!(converged(&decimal("0.1"), &near, &x, 2), Ok(false));
}
