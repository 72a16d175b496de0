use vstd::prelude::*;
use vstd::arithmetic::power::pow;
use bigdecimal::{BigDecimal, RoundingMode};
use num_bigint::{BigInt, Sign};
use crate::decimal::{fulfils, precision_of, Decimal, DecimalView, Expected};
use crate::error::BigDecimalMathError;
use crate::integer::{absolute, rounded_quotient, truncated_quotient, Integer};

verus! {

/// The decimal that `BigDecimal`'s division gives for two decimals.
pub uninterp spec fn decimal_quotient(dividend: DecimalView, divisor: DecimalView) -> DecimalView;

/// The decimal that `BigDecimal::with_prec` gives for a decimal and a number
/// of significant digits, where it drops more than `EXACT_DROP_LIMIT` digits.
pub uninterp spec fn decimal_with_precision(value: DecimalView, precision: nat) -> DecimalView;

/// Largest number of digits that `with_prec` drops with a result that is
/// written out here. The decimal crate picks the rounding digit from a
/// floating-point estimate of the length of what it drops, and that estimate
/// is exact up to lengths far beyond this one.
pub const EXACT_DROP_LIMIT: u64 = 10_000_000;

/// `value` at `precision` significant digits. With fewer digits than that,
/// zeros are appended. With more, the digits in excess are cut off; what is
/// left of a positive value goes up by one where the part cut off is a half
/// or more, and a negative value is left cut towards zero.
pub open spec fn brought_to_precision(value: DecimalView, precision: nat) -> DecimalView {
    if precision_of(value) > precision {
        let drop = (precision_of(value) - precision) as nat;
        let cut = truncated_quotient(value.unscaled, pow(10, drop));
        let rest = value.unscaled - cut * pow(10, drop);
        DecimalView {
            unscaled: if 2 * rest >= pow(10, drop) {
                cut + 1
            } else {
                cut
            },
            scale: value.scale - drop,
        }
    } else {
        let more = (precision - precision_of(value)) as nat;
        DecimalView { unscaled: value.unscaled * pow(10, more), scale: value.scale + more }
    }
}

/// `value` at `precision` significant digits, as `Decimal::with_prec` gives
/// it: written out where no more than `EXACT_DROP_LIMIT` digits are dropped.
pub open spec fn with_precision(value: DecimalView, precision: nat) -> DecimalView {
    if precision_of(value) <= precision + EXACT_DROP_LIMIT {
        brought_to_precision(value, precision)
    } else {
        decimal_with_precision(value, precision)
    }
}

/// `value` rounded to `digits` digits after the decimal point, ties away from
/// zero. Zeros are appended where `value` has fewer digits than that.
pub open spec fn decimal_rounded(value: DecimalView, digits: int) -> DecimalView {
    if value.unscaled == 0 {
        DecimalView { unscaled: 0, scale: digits }
    } else if digits >= value.scale {
        DecimalView {
            unscaled: value.unscaled * pow(10, (digits - value.scale) as nat),
            scale: digits,
        }
    } else {
        DecimalView {
            unscaled: rounded_quotient(
                value.unscaled,
                pow(10, (value.scale - digits) as nat),
            ),
            scale: digits,
        }
    }
}

/// Rounding keeps the decimal where it only appends zeros, and otherwise
/// moves it by at most half a unit of the last digit kept.
pub proof fn lemma_rounded_is_near(value: DecimalView, digits: int)
    ensures
        decimal_rounded(value, digits).scale == digits,
        digits >= value.scale ==> decimal_rounded(value, digits).unscaled == value.unscaled
            * pow(10, (digits - value.scale) as nat),
        digits < value.scale ==> 2 * absolute(
            decimal_rounded(value, digits).unscaled * pow(10, (value.scale - digits) as nat)
                - value.unscaled,
        ) <= pow(10, (value.scale - digits) as nat),
{
    if digits >= value.scale {
        let p = pow(10, (digits - value.scale) as nat);
        assert(0 * p == 0) by (nonlinear_arith);
    } else {
        let p = pow(10, (value.scale - digits) as nat);
        vstd::arithmetic::power::lemma_pow_positive(10, (value.scale - digits) as nat);
        crate::integer::lemma_rounded_quotient_is_nearest(value.unscaled, p);
        assert(0 * p == 0) by (nonlinear_arith);
        assert(rounded_quotient(0, p) == 0) by {
            vstd::arithmetic::div_mod::lemma_small_mod(0, p as nat);
            vstd::arithmetic::div_mod::lemma_div_basics(p);
        }
    }
}

/// The difference of two decimals at the larger of their scales, to which
/// the other operand is brought by appending zeros.
pub open spec fn decimal_difference(minuend: DecimalView, subtrahend: DecimalView) -> DecimalView {
    let scale = if minuend.scale >= subtrahend.scale {
        minuend.scale
    } else {
        subtrahend.scale
    };
    DecimalView {
        unscaled: minuend.unscaled * pow(10, (scale - minuend.scale) as nat)
            - subtrahend.unscaled * pow(10, (scale - subtrahend.scale) as nat),
        scale,
    }
}

/// `value` moved to another scale: zeros are appended when the scale grows,
/// and digits are cut off, without rounding, when it shrinks.
pub open spec fn rescaled(value: DecimalView, scale: int) -> DecimalView {
    if value.unscaled == 0 {
        DecimalView { unscaled: 0, scale }
    } else if scale >= value.scale {
        DecimalView {
            unscaled: value.unscaled * pow(10, (scale - value.scale) as nat),
            scale,
        }
    } else {
        DecimalView {
            unscaled: truncated_quotient(
                value.unscaled,
                pow(10, (value.scale - scale) as nat),
            ),
            scale,
        }
    }
}

/// Whether the scale of a quotient stays within a machine integer: the
/// division starts from the difference of the two scales and then adds one
/// for every digit it produces, at most as many as the divisor has digits
/// and the division precision allows. A zero dividend is handed back as it
/// is.
pub open spec fn quotient_defined(dividend: DecimalView, divisor: DecimalView) -> bool {
    dividend.unscaled == 0 || (i64::MIN <= dividend.scale - divisor.scale && dividend.scale
        - divisor.scale + precision_of(divisor) + 0x1_0000_0000 <= i64::MAX)
}

/// Whether the scale moved by the digits appended or dropped stays within a
/// machine integer.
pub open spec fn with_prec_defined(value: DecimalView, precision: nat) -> bool {
    &&& -i64::MAX <= precision - precision_of(value) <= i64::MAX
    &&& i64::MIN <= value.scale + (precision - precision_of(value)) <= i64::MAX
}

/// Whether rounding to `digits` digits stays within a machine integer: the
/// distance to the new scale where zeros are appended, the number of digits
/// before the decimal point where digits are dropped.
pub open spec fn round_defined(value: DecimalView, digits: int) -> bool {
    ||| value.unscaled == 0
    ||| digits == value.scale
    ||| digits > value.scale && digits - value.scale <= i64::MAX
    ||| digits < value.scale && i64::MIN < digits && precision_of(value) <= i64::MAX
        && precision_of(value) - value.scale <= i64::MAX
}

/// Whether the distance between the two scales is a machine integer. A zero
/// minuend of the smaller scale takes the other scale as it is.
pub open spec fn difference_defined(minuend: DecimalView, subtrahend: DecimalView) -> bool {
    if minuend.scale >= subtrahend.scale {
        minuend.scale - subtrahend.scale <= i64::MAX
    } else {
        minuend.unscaled == 0 || subtrahend.scale - minuend.scale <= i64::MAX
    }
}

/// Whether the distance to the new scale is a machine integer. Zero takes
/// any scale.
pub open spec fn with_scale_defined(value: DecimalView, scale: int) -> bool {
    value.unscaled == 0 || -i64::MAX <= scale - value.scale <= i64::MAX
}

/// What `Decimal::divide` gives.
pub open spec fn quotient_outcome(dividend: DecimalView, divisor: DecimalView) -> Expected {
    if divisor.unscaled == 0 {
        Err("division by zero"@)
    } else if !quotient_defined(dividend, divisor) {
        Err("scale out of range"@)
    } else {
        Ok(decimal_quotient(dividend, divisor))
    }
}

/// What `Decimal::with_prec` gives.
pub open spec fn with_prec_outcome(value: DecimalView, precision: nat) -> Expected {
    if !with_prec_defined(value, precision) {
        Err("scale out of range"@)
    } else {
        Ok(with_precision(value, precision))
    }
}

/// What `Decimal::round` gives.
pub open spec fn round_outcome(value: DecimalView, digits: int) -> Expected {
    if !round_defined(value, digits) {
        Err("scale out of range"@)
    } else {
        Ok(decimal_rounded(value, digits))
    }
}

/// What `Decimal::subtract` gives.
pub open spec fn difference_outcome(minuend: DecimalView, subtrahend: DecimalView) -> Expected {
    if !difference_defined(minuend, subtrahend) {
        Err("scale out of range"@)
    } else {
        Ok(decimal_difference(minuend, subtrahend))
    }
}

/// What `Decimal::with_scale` gives.
pub open spec fn with_scale_outcome(value: DecimalView, scale: int) -> Expected {
    if !with_scale_defined(value, scale) {
        Err("scale out of range"@)
    } else {
        Ok(rescaled(value, scale))
    }
}

/// Calls `BigDecimal`'s `/` on references, which panics on a zero divisor
/// and shifts the scale by at most the divisor's digit count and the crate's
/// division precision. The contract claims only that the result is a
/// function of the two operands; the crate cuts the quotient at the
/// precision it was built with, one hundred digits unless set otherwise.
#[verifier::external_body]
fn bigdecimal_div(dividend: &Decimal, divisor: &Decimal) -> (result: Decimal)
    requires
        divisor@.unscaled != 0,
        quotient_defined(dividend@, divisor@),
    ensures
        result@ == decimal_quotient(dividend@, divisor@),
{
    let sign = if dividend.unscaled.negative { Sign::Minus } else { Sign::Plus };
    let x = BigDecimal::new(BigInt::from_slice(sign, &dividend.unscaled.magnitude), dividend.scale);
    let sign = if divisor.unscaled.negative { Sign::Minus } else { Sign::Plus };
    let y = BigDecimal::new(BigInt::from_slice(sign, &divisor.unscaled.magnitude), divisor.scale);
    let (unscaled, scale) = (&x / &y).into_bigint_and_exponent();
    let (sign, magnitude) = unscaled.to_u32_digits();
    Decimal { unscaled: Integer { negative: sign == Sign::Minus, magnitude }, scale }
}

/// Calls `BigDecimal::with_prec`, which moves the scale by the difference
/// between the digit count and the precision. The contract claims what the
/// crate's source shows: with fewer digits than asked, zeros are appended;
/// with more, the unscaled integer is divided by the power of ten of the
/// digits in excess, towards zero, and one is added where the remainder is
/// positive and its first digit is five or more. Which digit that is, the
/// crate takes from a floating-point estimate of the remainder's length; the
/// estimate first goes wrong at a length of more than forty million digits,
/// so beyond `EXACT_DROP_LIMIT` digits dropped the contract claims only that
/// the result is a function of the operand and the precision.
#[verifier::external_body]
fn bigdecimal_with_prec(value: &Decimal, precision: u64) -> (result: Decimal)
    requires
        with_prec_defined(value@, precision as nat),
    ensures
        precision_of(value@) <= precision + EXACT_DROP_LIMIT ==> result@ == brought_to_precision(
            value@,
            precision as nat,
        ),
        precision_of(value@) > precision + EXACT_DROP_LIMIT ==> result@ == decimal_with_precision(
            value@,
            precision as nat,
        ),
{
    let sign = if value.unscaled.negative { Sign::Minus } else { Sign::Plus };
    let x = BigDecimal::new(BigInt::from_slice(sign, &value.unscaled.magnitude), value.scale);
    let (unscaled, scale) = x.with_prec(precision).into_bigint_and_exponent();
    let (sign, magnitude) = unscaled.to_u32_digits();
    Decimal { unscaled: Integer { negative: sign == Sign::Minus, magnitude }, scale }
}

/// Calls `BigDecimal::with_scale_round` with `RoundingMode::HalfUp`, which
/// subtracts the two scales from each other. The contract claims what the
/// crate's source shows: zero takes the new scale; a larger scale appends
/// zeros; a smaller one drops digits and adds one to the size of what is
/// left where the first digit dropped is five or more.
#[verifier::external_body]
fn bigdecimal_with_scale_round(value: &Decimal, digits: i64) -> (result: Decimal)
    requires
        round_defined(value@, digits as int),
    ensures
        result@ == decimal_rounded(value@, digits as int),
{
    let sign = if value.unscaled.negative { Sign::Minus } else { Sign::Plus };
    let x = BigDecimal::new(BigInt::from_slice(sign, &value.unscaled.magnitude), value.scale);
    let (unscaled, scale) = x.with_scale_round(digits, RoundingMode::HalfUp).into_bigint_and_exponent();
    let (sign, magnitude) = unscaled.to_u32_digits();
    Decimal { unscaled: Integer { negative: sign == Sign::Minus, magnitude }, scale }
}

/// Calls `BigDecimal`'s `-` on references, which subtracts the two scales
/// from each other to align the operands. The contract claims what the
/// crate's source shows: the operand of the smaller scale is multiplied by
/// the power of ten between the scales, and the unscaled integers are
/// subtracted at the larger scale, also where an operand is zero.
#[verifier::external_body]
fn bigdecimal_sub(minuend: &Decimal, subtrahend: &Decimal) -> (result: Decimal)
    requires
        difference_defined(minuend@, subtrahend@),
    ensures
        result@ == decimal_difference(minuend@, subtrahend@),
{
    let sign = if minuend.unscaled.negative { Sign::Minus } else { Sign::Plus };
    let x = BigDecimal::new(BigInt::from_slice(sign, &minuend.unscaled.magnitude), minuend.scale);
    let sign = if subtrahend.unscaled.negative { Sign::Minus } else { Sign::Plus };
    let y = BigDecimal::new(BigInt::from_slice(sign, &subtrahend.unscaled.magnitude), subtrahend.scale);
    let (unscaled, scale) = (&x - &y).into_bigint_and_exponent();
    let (sign, magnitude) = unscaled.to_u32_digits();
    Decimal { unscaled: Integer { negative: sign == Sign::Minus, magnitude }, scale }
}

/// Calls `BigDecimal::with_scale`, which subtracts the two scales from each
/// other. The contract claims what the crate's source shows: zero takes the
/// new scale; a larger scale multiplies the unscaled integer by the power of
/// ten between the scales; a smaller one divides by it, rounding towards
/// zero.
#[verifier::external_body]
fn bigdecimal_with_scale(value: &Decimal, scale: i64) -> (result: Decimal)
    requires
        with_scale_defined(value@, scale as int),
    ensures
        result@ == rescaled(value@, scale as int),
{
    let sign = if value.unscaled.negative { Sign::Minus } else { Sign::Plus };
    let x = BigDecimal::new(BigInt::from_slice(sign, &value.unscaled.magnitude), value.scale);
    let (unscaled, scale) = x.with_scale(scale).into_bigint_and_exponent();
    let (sign, magnitude) = unscaled.to_u32_digits();
    Decimal { unscaled: Integer { negative: sign == Sign::Minus, magnitude }, scale }
}

impl Decimal {
    /// The quotient of two decimals, as the decimal crate computes it. It
    /// fails for a zero divisor, and where the scale of the quotient could
    /// leave the range of a machine integer.
    pub fn divide(&self, divisor: &Decimal) -> (result: Result<Decimal, BigDecimalMathError>)
        ensures
            fulfils(result, quotient_outcome(self@, divisor@)),
    {
        if divisor.is_zero() {
            return Err(BigDecimalMathError::arithmetic("division by zero"));
        }
        if !self.is_zero() {
            let distance: i128 = self.scale as i128 - divisor.scale as i128;
            let digits: i128 = divisor.unscaled.decimal_digits() as i128;
            if distance < i64::MIN as i128 || distance + digits + 0x1_0000_0000 > i64::MAX as i128 {
                return Err(BigDecimalMathError::arithmetic("scale out of range"));
            }
        }
        Ok(bigdecimal_div(self, divisor))
    }

    /// The decimal brought to `precision` significant digits: zeros
    /// appended, or the digits in excess cut off, a positive value rounding
    /// half up. It fails where the new scale leaves the range of a machine
    /// integer.
    pub fn with_prec(&self, precision: u64) -> (result: Result<Decimal, BigDecimalMathError>)
        ensures
            fulfils(result, with_prec_outcome(self@, precision as nat)),
    {
        let shift: i128 = precision as i128 - self.unscaled.decimal_digits() as i128;
        let scale: i128 = self.scale as i128 + shift;
        if shift < -(i64::MAX as i128) || shift > i64::MAX as i128 || scale < i64::MIN as i128
            || scale > i64::MAX as i128 {
            Err(BigDecimalMathError::arithmetic("scale out of range"))
        } else {
            Ok(bigdecimal_with_prec(self, precision))
        }
    }

    /// The decimal rounded to `digits` digits after the decimal point, ties
    /// away from zero. It fails where the distance to the new scale, or the
    /// number of digits before the decimal point, is no machine integer.
    pub fn round(&self, digits: i64) -> (result: Result<Decimal, BigDecimalMathError>)
        ensures
            fulfils(result, round_outcome(self@, digits as int)),
    {
        if self.is_zero() || digits == self.scale {
            return Ok(bigdecimal_with_scale_round(self, digits));
        }
        if digits > self.scale {
            if digits as i128 - self.scale as i128 > i64::MAX as i128 {
                return Err(BigDecimalMathError::arithmetic("scale out of range"));
            }
        } else {
            let length: i128 = self.unscaled.decimal_digits() as i128;
            if digits == i64::MIN || length > i64::MAX as i128 || length - self.scale as i128
                > i64::MAX as i128 {
                return Err(BigDecimalMathError::arithmetic("scale out of range"));
            }
        }
        Ok(bigdecimal_with_scale_round(self, digits))
    }

    /// The difference of two decimals, at the larger of their scales. It
    /// fails where the distance between the scales is no machine integer.
    pub fn subtract(&self, subtrahend: &Decimal) -> (result: Result<Decimal, BigDecimalMathError>)
        ensures
            fulfils(result, difference_outcome(self@, subtrahend@)),
    {
        let distance: i128 = self.scale as i128 - subtrahend.scale as i128;
        if distance > i64::MAX as i128 || (distance < -(i64::MAX as i128) && !self.is_zero()) {
            Err(BigDecimalMathError::arithmetic("scale out of range"))
        } else {
            Ok(bigdecimal_sub(self, subtrahend))
        }
    }

    /// The decimal at another scale: zeros appended, or digits cut off
    /// without rounding. It fails where the distance to the new scale is no
    /// machine integer.
    pub fn with_scale(&self, scale: i64) -> (result: Result<Decimal, BigDecimalMathError>)
        ensures
            fulfils(result, with_scale_outcome(self@, scale as int)),
    {
        let distance: i128 = scale as i128 - self.scale as i128;
        if !self.is_zero() && (distance > i64::MAX as i128 || distance < -(i64::MAX as i128)) {
            Err(BigDecimalMathError::arithmetic("scale out of range"))
        } else {
            Ok(bigdecimal_with_scale(self, scale))
        }
    }
}

} // verus!
