use vstd::prelude::*;
use vstd::arithmetic::power::{pow, lemma_pow_increases};
use crate::decimal::{fulfils, get_prec, precision_of, Decimal, DecimalView, Expected};
use crate::error::BigDecimalMathError;
use crate::integer::{absolute, rounded_quotient, size_of_i64, Integer};
use crate::magnitude;
use crate::power_of_ten::{
    big_ten_to_the, grown_length, lemma_grown_length_covers, lemma_table_holds_powers, PowerCache,
    LONG_TEN_POWERS_TABLE,
};
use crate::magnitude::{
    digit_count, digits_value, lemma_digit_count_bounds, lemma_digit_count_of_power,
    lemma_radix_power, lemma_upper_bounds, lemma_upper_step, lemma_value_lower_bound,
    lemma_value_upper_bound, radix, upper_value,
};

verus! {

/// How `a` stands to half of `b`: -1 below, 0 exactly at, 1 above.
pub open spec fn half_comparison(a: nat, b: nat) -> int {
    if 2 * a < b {
        -1
    } else if 2 * a == b {
        0
    } else {
        1
    }
}

/// Where the upper part of `a` is more than one half below that of `b`, so
/// is `a` below half of `b`.
proof fn lemma_upper_below(a: Seq<u32>, b: Seq<u32>, from: int)
    requires
        0 <= from <= a.len(),
        from <= b.len(),
        2 * upper_value(a, from) + 2 <= upper_value(b, from),
    ensures
        2 * digits_value(a) < digits_value(b),
{
    lemma_upper_bounds(a, from);
    lemma_upper_bounds(b, from);
    let p = pow(radix(), from as nat);
    let ta = upper_value(a, from) as int;
    let tb = upper_value(b, from) as int;
    assert(p * (2 * ta + 2) <= p * tb) by (nonlinear_arith)
        requires
            p > 0,
            2 * ta + 2 <= tb,
    ;
    assert(p * (2 * ta + 2) == 2 * (p * ta) + 2 * p) by (nonlinear_arith);
}

/// Where the upper part of `a` is more than half that of `b` plus one half,
/// `a` is above half of `b`.
proof fn lemma_upper_above(a: Seq<u32>, b: Seq<u32>, from: int)
    requires
        0 <= from <= a.len(),
        from <= b.len(),
        2 * upper_value(a, from) >= upper_value(b, from) + 1,
    ensures
        2 * digits_value(a) > digits_value(b),
{
    lemma_upper_bounds(a, from);
    lemma_upper_bounds(b, from);
    let p = pow(radix(), from as nat);
    let ta = upper_value(a, from) as int;
    let tb = upper_value(b, from) as int;
    assert(p * (tb + 1) <= p * (2 * ta)) by (nonlinear_arith)
        requires
            p > 0,
            tb + 1 <= 2 * ta,
    ;
    assert(p * (tb + 1) == p * tb + p) by (nonlinear_arith);
    assert(p * (2 * ta) == 2 * (p * ta)) by (nonlinear_arith);
}

/// Compares the size of `a` with half the size of `b`, digit by digit from
/// the most significant end and without forming the half: -1 where `a` is
/// below it, 0 where the two are equal, 1 where `a` is above. The signs of
/// the two integers play no part.
pub fn compare_half(a: &Integer, b: &Integer) -> (order: i32)
    ensures
        order == half_comparison(absolute(a@), absolute(b@)),
{
    let a_val = a.magnitude();
    let b_val = b.magnitude();
    let a_len: usize = a_val.len();
    let b_len: usize = b_val.len();
    if a_len == 0 {
        proof {
            crate::magnitude::lemma_value_zero(a_val@);
            crate::magnitude::lemma_value_zero(b_val@);
        }
        if b_len == 0 {
            return 0;
        } else {
            return -1;
        }
    }
    if a_len > b_len {
        proof {
            lemma_value_lower_bound(a_val@);
            lemma_value_upper_bound(b_val@);
            lemma_pow_increases(radix() as nat, b_len as nat, (a_len - 1) as nat);
        }
        return 1;
    }
    if a_len < b_len - 1 {
        proof {
            lemma_value_upper_bound(a_val@);
            lemma_value_lower_bound(b_val@);
            lemma_pow_increases(radix() as nat, (a_len + 1) as nat, (b_len - 1) as nat);
            lemma_radix_power(a_len as nat);
        }
        return -1;
    }
    let mut carry: u32 = 0;
    if a_len != b_len {
        if b_val[b_len - 1] == 1 {
            carry = 0x8000_0000;
            proof {
                let top = b_val@.subrange(a_len as int, b_len as int);
                assert(top.skip(1).len() == 0);
                assert(digits_value(top.skip(1)) == 0);
                assert(upper_value(b_val@, a_len as int) == 1);
                assert(upper_value(a_val@, a_len as int) == 0);
            }
        } else {
            proof {
                let top = b_val@.subrange(a_len as int, b_len as int);
                assert(top.skip(1).len() == 0);
                assert(digits_value(top.skip(1)) == 0);
                assert(upper_value(b_val@, a_len as int) >= 2);
                assert(upper_value(a_val@, a_len as int) == 0);
                lemma_upper_below(a_val@, b_val@, a_len as int);
            }
            return -1;
        }
    } else {
        proof {
            assert(upper_value(b_val@, a_len as int) == 0);
            assert(upper_value(a_val@, a_len as int) == 0);
        }
    }
    let mut i: usize = a_len;
    while i > 0
        invariant
            i <= a_len <= b_len,
            a_len == a_val@.len(),
            b_len == b_val@.len(),
            carry == 0 || carry == 0x8000_0000,
            digits_value(a_val@) == absolute(a@),
            digits_value(b_val@) == absolute(b@),
            upper_value(b_val@, i as int) == 2 * upper_value(a_val@, i as int) + (if carry == 0 {
                0int
            } else {
                1int
            }),
        decreases i,
    {
        proof {
            lemma_upper_step(a_val@, i as int);
            lemma_upper_step(b_val@, i as int);
        }
        i = i - 1;
        let bv: u32 = b_val[i];
        let v: u32 = a_val[i];
        assert(bv == 2 * (bv >> 1) + (bv & 1) && (bv >> 1) < 0x8000_0000 && (bv & 1) <= 1
            && ((bv & 1) << 31) == (bv & 1) * 0x8000_0000) by (bit_vector);
        let hb: u32 = (bv >> 1) + carry;
        if v != hb {
            if v < hb {
                proof {
                    lemma_upper_below(a_val@, b_val@, i as int);
                }
                return -1;
            } else {
                proof {
                    lemma_upper_above(a_val@, b_val@, i as int);
                }
                return 1;
            }
        }
        carry = (bv & 1) << 31;
    }
    proof {
        assert(a_val@.subrange(0, a_len as int) =~= a_val@);
        assert(b_val@.subrange(0, b_len as int) =~= b_val@);
    }
    if carry == 0 {
        0
    } else {
        -1
    }
}

/// Narrows a scale to 32 bits, and fails where it does not fit them.
pub fn check_scale_non_zero(val: i64) -> (result: Result<i32, BigDecimalMathError>)
    ensures
        match result {
            Ok(scale) => scale == val,
            Err(error) => (val < i32::MIN || val > i32::MAX) && error.message()
                == "scale out of range"@,
        },
{
    if val < i32::MIN as i64 || val > i32::MAX as i64 {
        Err(BigDecimalMathError::arithmetic("scale out of range"))
    } else {
        Ok(val as i32)
    }
}

/// Divides an integer by a machine integer and rounds the quotient to the
/// nearest integer, ties away from zero.
pub fn divide_and_round_i64(int_val: Integer, pow: i64) -> (rounded: Integer)
    requires
        pow != 0,
    ensures
        rounded@ == rounded_quotient(int_val@, pow as int),
{
    let size: u64 = size_of_i64(pow);
    let divisor = magnitude::from_u64(size);
    let whole = magnitude::quotient(int_val.magnitude(), &divisor);
    let rest = magnitude::remainder(int_val.magnitude(), &divisor);
    let negative = int_val.is_negative() != (pow < 0);
    match magnitude::to_u64(&rest) {
        Some(rest) if rest >= size - rest => {
            let one = magnitude::from_u64(1);
            Integer::from_parts(negative, magnitude::sum(&whole, &one))
        },
        _ => Integer::from_parts(negative, whole),
    }
}

/// Divides an integer by another and rounds the quotient to the nearest
/// integer, ties away from zero. The remainder is compared with half of the
/// divisor digit by digit.
pub fn divide_and_round_bigint(dividend: Integer, divisor: Integer) -> (rounded: Integer)
    requires
        divisor@ != 0,
    ensures
        rounded@ == rounded_quotient(dividend@, divisor@),
{
    let whole = magnitude::quotient(dividend.magnitude(), divisor.magnitude());
    let rest = Integer::from_parts(
        false,
        magnitude::remainder(dividend.magnitude(), divisor.magnitude()),
    );
    let negative = dividend.is_negative() != divisor.is_negative();
    if compare_half(&rest, &divisor) >= 0 {
        let one = magnitude::from_u64(1);
        Integer::from_parts(negative, magnitude::sum(&whole, &one))
    } else {
        Integer::from_parts(negative, whole)
    }
}

/// Divides an integer by `10^ten_pow` and rounds the quotient to the nearest
/// integer, ties away from zero. Powers of the fixed table divide in machine
/// arithmetic; larger ones come from the cache, which grows as needed.
pub fn divide_and_round_by_ten_pow(
    int_val: Integer,
    ten_pow: i32,
    cache: &mut PowerCache,
) -> (rounded: Integer)
    requires
        ten_pow >= 0,
        old(cache).well_formed(),
    ensures
        rounded@ == rounded_quotient(int_val@, pow(10, ten_pow as nat)),
        final(cache).well_formed(),
        final(cache).covered() == if ten_pow < 19 {
            old(cache).covered()
        } else {
            grown_length(old(cache).covered(), ten_pow as nat)
        },
{
    if (ten_pow as usize) < LONG_TEN_POWERS_TABLE.len() {
        proof {
            lemma_table_holds_powers();
        }
        divide_and_round_i64(int_val, LONG_TEN_POWERS_TABLE[ten_pow as usize])
    } else {
        let divisor = big_ten_to_the(cache, ten_pow);
        proof {
            vstd::arithmetic::power::lemma_pow_positive(10, ten_pow as nat);
        }
        divide_and_round_bigint(int_val, divisor)
    }
}

/// `value` with its last `drop` digits rounded away, where the new scale is
/// a 32-bit integer.
pub open spec fn shortened_outcome(value: DecimalView, drop: nat) -> Expected {
    if drop > i32::MAX || value.scale - drop < i32::MIN || value.scale - drop > i32::MAX {
        Err("scale out of range"@)
    } else {
        Ok(
            DecimalView {
                unscaled: rounded_quotient(value.unscaled, pow(10, drop)),
                scale: value.scale - drop,
            },
        )
    }
}

/// What `do_round` gives: `d` itself where it has no more than `precision`
/// digits or no precision is asked for, else `d` with the digits in excess
/// rounded away, and once more where the rounding carried into a new digit.
pub open spec fn do_round_outcome(d: DecimalView, precision: int) -> Expected {
    if precision <= 0 || precision_of(d) <= precision {
        Ok(d)
    } else {
        match shortened_outcome(d, (precision_of(d) - precision) as nat) {
            Err(text) => Err(text),
            Ok(once) => if precision_of(once) <= precision {
                Ok(once)
            } else {
                shortened_outcome(once, (precision_of(once) - precision) as nat)
            },
        }
    }
}

/// Rounding the digits in excess away leaves at most one digit too many, and
/// then the number is a power of ten: a second rounding ends with exactly
/// `precision` digits.
pub proof fn lemma_do_round_precision(unscaled: int, precision: nat)
    requires
        precision >= 1,
        digit_count(absolute(unscaled)) > precision,
    ensures
        ({
            let drop = (digit_count(absolute(unscaled)) - precision) as nat;
            let once = rounded_quotient(unscaled, pow(10, drop));
            let twice = rounded_quotient(
                once,
                pow(10, (digit_count(absolute(once)) - precision) as nat),
            );
            digit_count(absolute(once)) <= precision || digit_count(absolute(twice)) <= precision
        }),
{
    let size = absolute(unscaled);
    let digits = digit_count(size);
    let drop = (digits - precision) as nat;
    let divisor = pow(10, drop);
    let limit = pow(10, precision);
    let once = rounded_quotient(unscaled, divisor);
    lemma_digit_count_bounds(size);
    lemma_digit_count_of_power(drop);
    lemma_digit_count_of_power(precision);
    vstd::arithmetic::power::lemma_pow_adds(10, drop, precision);
    assert(size < divisor * limit);
    let whole = (size as int) / divisor;
    assert(whole < limit) by (nonlinear_arith)
        requires
            size < divisor * limit,
            divisor > 0,
            whole == (size as int) / divisor,
    ;
    assert(absolute(divisor) == divisor);
    assert(absolute(once) <= limit);
    if digit_count(absolute(once)) > precision {
        lemma_digit_count_bounds(absolute(once));
        let more = digit_count(absolute(once));
        vstd::arithmetic::power::lemma_pow_increases(10, precision, (more - 1) as nat);
        assert(absolute(once) == limit);
        assert(more == precision + 1);
        reveal(pow);
        assert(pow(10, 1) == 10 * pow(10, 0));
        assert(pow(10, 0) == 1);
        let lower = pow(10, (precision - 1) as nat);
        assert(limit == 10 * lower);
        lemma_digit_count_of_power((precision - 1) as nat);
        let twice = rounded_quotient(once, 10);
        assert(absolute(twice) == lower);
    }
}

/// One rounding step of `do_round`: drops the last `drop` digits of `value`
/// and rounds what is left to the nearest, ties away from zero.
fn shortened(value: &Decimal, drop: usize, cache: &mut PowerCache) -> (result: Result<
    Decimal,
    BigDecimalMathError,
>)
    requires
        old(cache).well_formed(),
    ensures
        final(cache).well_formed(),
        final(cache).covered() >= old(cache).covered(),
        fulfils(result, shortened_outcome(value@, drop as nat)),
{
    if drop > i32::MAX as usize {
        return Err(BigDecimalMathError::arithmetic("scale out of range"));
    }
    let scale: i32 = match value.scale.checked_sub(drop as i64) {
        None => {
            return Err(BigDecimalMathError::arithmetic("scale out of range"));
        },
        Some(moved) => check_scale_non_zero(moved)?,
    };
    proof {
        lemma_grown_length_covers(cache.covered(), drop as nat);
    }
    let unscaled = divide_and_round_by_ten_pow(value.unscaled.duplicate(), drop as i32, cache);
    Ok(Decimal::new(unscaled, scale as i64))
}

/// Rounds `d` to `precision` significant digits, ties away from zero. A
/// precision of zero or less asks for no rounding. The scale of a rounded
/// result has to be a 32-bit integer.
pub fn do_round(d: &Decimal, precision: isize, cache: &mut PowerCache) -> (result: Result<
    Decimal,
    BigDecimalMathError,
>)
    requires
        old(cache).well_formed(),
    ensures
        final(cache).well_formed(),
        final(cache).covered() >= old(cache).covered(),
        fulfils(result, do_round_outcome(d@, precision as int)),
        precision > 0 ==> (result matches Ok(rounded) ==> precision_of(rounded@) <= precision),
{
    let digits: usize = get_prec(d);
    if precision <= 0 || digits <= precision as usize {
        return Ok(d.clone());
    }
    proof {
        lemma_do_round_precision(d@.unscaled, precision as nat);
    }
    let once = shortened(d, digits - precision as usize, cache)?;
    let digits: usize = get_prec(&once);
    if digits <= precision as usize {
        Ok(once)
    } else {
        shortened(&once, digits - precision as usize, cache)
    }
}

} // verus!
