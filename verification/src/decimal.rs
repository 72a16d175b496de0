use vstd::prelude::*;
use crate::arithmetic::with_scale_outcome;
use crate::error::BigDecimalMathError;
use crate::integer::{absolute, Integer};
use crate::magnitude::digit_count;

verus! {

/// What a decimal is worth: `unscaled * 10^(-scale)`, kept as the pair and
/// never normalized.
pub struct DecimalView {
    pub unscaled: int,
    pub scale: int,
}

/// An exact decimal number: an integer of any size and the position of the
/// decimal point. A positive scale counts digits after the point.
#[derive(Debug, PartialEq, Eq)]
pub struct Decimal {
    pub unscaled: Integer,
    pub scale: i64,
}

impl View for Decimal {
    type V = DecimalView;

    /// The unscaled integer and the scale as mathematical integers.
    open spec fn view(&self) -> DecimalView {
        DecimalView { unscaled: self.unscaled@, scale: self.scale as int }
    }
}

impl Clone for Decimal {
    /// A second decimal with the same unscaled integer and scale.
    fn clone(&self) -> (copy: Self)
        ensures
            copy@ == self@,
    {
        Decimal { unscaled: self.unscaled.duplicate(), scale: self.scale }
    }
}

/// What a computation that may fail is expected to give: a decimal, or the
/// text of the error.
pub type Expected = Result<DecimalView, Seq<char>>;

/// The result carries the expected decimal, or an error with the expected
/// text.
pub open spec fn fulfils(result: Result<Decimal, BigDecimalMathError>, expected: Expected) -> bool {
    match (result, expected) {
        (Ok(value), Ok(view)) => value@ == view,
        (Err(error), Err(text)) => error.message() == text,
        _ => false,
    }
}

/// Largest exponent that `pow` accepts.
pub const MAX_EXPONENT: i32 = 999_999_999;

/// The smallest positive decimal at the scale of `value`.
pub open spec fn ulp_of(value: DecimalView) -> DecimalView {
    DecimalView { unscaled: 1, scale: value.scale }
}

/// Number of decimal digits of the unscaled integer; zero has one.
pub open spec fn precision_of(value: DecimalView) -> nat {
    digit_count(absolute(value.unscaled))
}

/// `value` to the power `exponent`, exactly: the unscaled integer is raised
/// and the scale multiplied.
pub open spec fn raised(value: DecimalView, exponent: nat) -> DecimalView {
    DecimalView {
        unscaled: vstd::arithmetic::power::pow(value.unscaled, exponent),
        scale: value.scale * exponent,
    }
}

/// The numerator of a decimal written as a fraction over a power of ten.
pub open spec fn numerator(value: DecimalView) -> int {
    if value.scale < 0 {
        value.unscaled * vstd::arithmetic::power::pow(10, (-value.scale) as nat)
    } else {
        value.unscaled
    }
}

/// The denominator of a decimal written as a fraction over a power of ten.
pub open spec fn denominator(value: DecimalView) -> int {
    if value.scale > 0 {
        vstd::arithmetic::power::pow(10, value.scale as nat)
    } else {
        1
    }
}

/// Raising a decimal loses nothing: as fractions, the power has the power
/// of the numerator over the power of the denominator.
pub proof fn lemma_raised_is_exact(value: DecimalView, exponent: nat)
    ensures
        numerator(raised(value, exponent)) == vstd::arithmetic::power::pow(
            numerator(value),
            exponent,
        ),
        denominator(raised(value, exponent)) == vstd::arithmetic::power::pow(
            denominator(value),
            exponent,
        ),
{
    vstd::arithmetic::power::lemma_pow0(numerator(value));
    vstd::arithmetic::power::lemma_pow0(denominator(value));
    vstd::arithmetic::power::lemma_pow0(value.unscaled);
    vstd::arithmetic::power::lemma_pow0(10);
    vstd::arithmetic::power::lemma1_pow(exponent);
    assert(value.scale * exponent == 0 <==> (value.scale == 0 || exponent == 0))
        by (nonlinear_arith);
    assert(value.scale > 0 && exponent > 0 ==> value.scale * exponent > 0) by (nonlinear_arith);
    assert(value.scale < 0 && exponent > 0 ==> value.scale * exponent < 0) by (nonlinear_arith);
    if exponent > 0 && value.scale > 0 {
        vstd::arithmetic::power::lemma_pow_multiplies(10, value.scale as nat, exponent);
    } else if exponent > 0 && value.scale < 0 {
        let shift = (-value.scale) as nat;
        vstd::arithmetic::power::lemma_pow_multiplies(10, shift, exponent);
        vstd::arithmetic::power::lemma_pow_distributes(
            value.unscaled,
            vstd::arithmetic::power::pow(10, shift),
            exponent,
        );
        assert(-(value.scale * exponent) == shift * exponent) by (nonlinear_arith)
            requires
                shift == -value.scale,
        ;
    }
}

/// What `pow` gives: the exact power where the exponent is accepted and the
/// new scale fits a machine integer.
pub open spec fn pow_outcome(value: DecimalView, exponent: int) -> Expected {
    if exponent < 0 || exponent > MAX_EXPONENT {
        Err("Invalid power operation"@)
    } else if !(i64::MIN <= value.scale * exponent <= i64::MAX) {
        Err("scale out of range"@)
    } else {
        Ok(raised(value, exponent as nat))
    }
}

/// What `scale_prec` gives: `x` with `d` more digits after the point.
pub open spec fn scale_prec_outcome(x: DecimalView, d: int) -> Expected {
    if !(i64::MIN <= x.scale + d <= i64::MAX) {
        Err("scale out of range"@)
    } else {
        with_scale_outcome(x, x.scale + d)
    }
}

impl Decimal {
    /// The decimal `unscaled * 10^(-scale)`.
    pub fn new(unscaled: Integer, scale: i64) -> (value: Decimal)
        ensures
            value.unscaled == unscaled,
            value.scale == scale,
    {
        Decimal { unscaled, scale }
    }

    /// Whether the decimal is zero, at whatever scale.
    pub fn is_zero(&self) -> (zero: bool)
        ensures
            zero == (self@.unscaled == 0),
    {
        self.unscaled.is_zero()
    }

    /// Whether the decimal is below zero.
    pub fn is_negative(&self) -> (negative: bool)
        ensures
            negative == (self@.unscaled < 0),
    {
        self.unscaled.is_negative()
    }

    /// The absolute value, at the same scale.
    pub fn abs(&self) -> (size: Decimal)
        ensures
            size@ == (DecimalView { unscaled: absolute(self@.unscaled) as int, scale: self@.scale }),
    {
        Decimal { unscaled: self.unscaled.abs(), scale: self.scale }
    }
}

/// The unit in the last place of `x`: one at the scale of `x`.
pub fn ulp(x: &Decimal) -> (unit: Decimal)
    ensures
        unit@ == ulp_of(x@),
{
    Decimal { unscaled: Integer::one(), scale: x.scale }
}

/// The precision of `x`: the number of decimal digits of its unscaled
/// integer, whatever its sign.
pub fn get_prec(x: &Decimal) -> (digits: usize)
    ensures
        digits == precision_of(x@),
{
    x.unscaled.decimal_digits()
}

/// Raises `x` to the power `n` without rounding. Exponents below zero or
/// above `MAX_EXPONENT` are refused, and so is a scale that leaves the range
/// of a machine integer.
pub fn pow(x: &Decimal, n: i32) -> (result: Result<Decimal, BigDecimalMathError>)
    ensures
        fulfils(result, pow_outcome(x@, n as int)),
        n < 0 || n > 999_999_999 ==> result is Err,
        0 <= n <= 999_999_999 && i64::MIN <= x.scale * n <= i64::MAX ==> (result matches Ok(power)
            && power@.unscaled == vstd::arithmetic::power::pow(x@.unscaled, n as nat)
            && power@.scale == x.scale * n),
{
    if n < 0 || n > MAX_EXPONENT {
        return Err(BigDecimalMathError::arithmetic("Invalid power operation"));
    }
    match x.scale.checked_mul(n as i64) {
        None => Err(BigDecimalMathError::arithmetic("scale out of range")),
        Some(scale) => Ok(Decimal { unscaled: x.unscaled.power(n as u32), scale }),
    }
}

/// `x` with `d` more digits after the decimal point than it has (fewer for a
/// negative `d`, cut off without rounding). Appending digits changes nothing
/// about the value and succeeds whenever the new scale is a machine integer.
pub fn scale_prec(x: &Decimal, d: i64) -> (result: Result<Decimal, BigDecimalMathError>)
    ensures
        fulfils(result, scale_prec_outcome(x@, d as int)),
        d >= 0 && i64::MIN <= x.scale + d <= i64::MAX ==> (result matches Ok(longer)
            && longer@.scale == x.scale + d && longer@.unscaled == x@.unscaled
            * vstd::arithmetic::power::pow(10, d as nat)),
{
    proof {
        if d >= 0 {
            let factor = vstd::arithmetic::power::pow(10, d as nat);
            assert(0 * factor == 0) by (nonlinear_arith);
        }
    }
    match d.checked_add(x.scale) {
        None => Err(BigDecimalMathError::arithmetic("scale out of range")),
        Some(scale) => x.with_scale(scale),
    }
}

} // verus!
