use vstd::prelude::*;
use vstd::arithmetic::power::pow;
use crate::magnitude;
use crate::magnitude::{digits_value, normalized, digit_count};

verus! {

/// The integer with the given sign and absolute value.
pub open spec fn signed(negative: bool, magnitude: nat) -> int {
    if negative {
        -(magnitude as int)
    } else {
        magnitude as int
    }
}

/// The absolute value of an integer.
pub open spec fn absolute(value: int) -> nat {
    if value < 0 {
        (-value) as nat
    } else {
        value as nat
    }
}

/// The integer nearest to `dividend / divisor`; a quotient exactly between
/// two integers goes to the one further from zero.
pub open spec fn rounded_quotient(dividend: int, divisor: int) -> int {
    let whole: int = (absolute(dividend) / absolute(divisor)) as int;
    let rest: int = (absolute(dividend) % absolute(divisor)) as int;
    let size: int = if 2 * rest >= absolute(divisor) {
        whole + 1
    } else {
        whole
    };
    if (dividend < 0) != (divisor < 0) {
        -size
    } else {
        size
    }
}

/// The rounded quotient is a nearest integer: multiplied back it misses the
/// dividend by at most half the divisor.
pub proof fn lemma_rounded_quotient_is_nearest(dividend: int, divisor: int)
    requires
        divisor != 0,
    ensures
        2 * absolute(rounded_quotient(dividend, divisor) * divisor - dividend) <= absolute(
            divisor,
        ),
{
    let n = absolute(dividend) as int;
    let d = absolute(divisor) as int;
    let whole = n / d;
    let rest = n % d;
    vstd::arithmetic::div_mod::lemma_fundamental_div_mod(n, d);
    let size: int = if 2 * rest >= d {
        whole + 1
    } else {
        whole
    };
    let rounded = rounded_quotient(dividend, divisor);
    assert(d * (whole + 1) == d * whole + d) by (nonlinear_arith);
    assert(size * d == d * size) by (nonlinear_arith);
    let gap = size * d - n;
    assert(2 * absolute(gap) <= d);
    assert(rounded * divisor - dividend == gap || rounded * divisor - dividend == -gap)
        by (nonlinear_arith)
        requires
            (dividend < 0) != (divisor < 0) ==> rounded == -size,
            (dividend < 0) == (divisor < 0) ==> rounded == size,
            gap == size * d - n,
            n == dividend || n == -dividend,
            (n == dividend) <==> dividend >= 0,
            d == divisor || d == -divisor,
            (d == divisor) <==> divisor >= 0,
    ;
}

/// The quotient of an integer by a positive one, rounded towards zero.
pub open spec fn truncated_quotient(dividend: int, divisor: int) -> int {
    if dividend >= 0 {
        dividend / divisor
    } else {
        -((-dividend) / divisor)
    }
}

/// An integer of any size: a sign and base-2^32 digits, least significant
/// first. Zero has no digits and is not negative.
#[derive(Debug, PartialEq, Eq)]
pub struct Integer {
    pub(crate) negative: bool,
    pub(crate) magnitude: Vec<u32>,
}

impl View for Integer {
    type V = int;

    /// The mathematical integer that the sign and the digits stand for.
    closed spec fn view(&self) -> int {
        signed(self.negative, digits_value(self.magnitude@))
    }
}

impl Clone for Integer {
    /// A second integer of the same value.
    fn clone(&self) -> (copy: Self)
        ensures
            copy@ == self@,
    {
        self.duplicate()
    }
}

/// A negated base raised to a power keeps the sign only for odd exponents.
pub proof fn lemma_pow_negated(base: int, exponent: nat)
    ensures
        pow(-base, exponent) == if exponent % 2 == 1 {
            -pow(base, exponent)
        } else {
            pow(base, exponent)
        },
    decreases exponent,
{
    reveal(pow);
    if exponent > 0 {
        let rest = (exponent - 1) as nat;
        lemma_pow_negated(base, rest);
        let p = pow(base, rest);
        assert((-base) * p == -(base * p)) by (nonlinear_arith);
        assert((-base) * (-p) == base * p) by (nonlinear_arith);
    }
}

/// The absolute value of a machine integer, which always fits the unsigned
/// word.
pub fn size_of_i64(value: i64) -> (size: u64)
    ensures
        size == absolute(value as int),
{
    if value >= 0 {
        value as u64
    } else if value == i64::MIN {
        0x8000_0000_0000_0000
    } else {
        (-value) as u64
    }
}

impl Integer {
    /// The digits carry no zero at the most significant end, and zero is not
    /// negative.
    #[verifier::type_invariant]
    spec fn well_formed(self) -> bool {
        normalized(self.magnitude@) && (self.magnitude@.len() == 0 ==> !self.negative)
    }

    /// Builds an integer from a sign and digits; zero digits at the most
    /// significant end are dropped, and the sign of zero is ignored.
    pub fn from_parts(negative: bool, digits: Vec<u32>) -> (value: Integer)
        ensures
            value@ == signed(negative, digits_value(digits@)),
    {
        let magnitude = magnitude::trimmed(digits);
        proof {
            magnitude::lemma_value_zero(magnitude@);
        }
        let negative = negative && magnitude.len() != 0;
        Integer { negative, magnitude }
    }

    /// Builds an integer from a machine integer.
    pub fn from_i64(value: i64) -> (integer: Integer)
        ensures
            integer@ == value,
    {
        let magnitude = magnitude::from_u64(size_of_i64(value));
        proof {
            magnitude::lemma_value_zero(magnitude@);
        }
        Integer { negative: value < 0, magnitude }
    }

    /// The integer zero.
    pub fn zero() -> (integer: Integer)
        ensures
            integer@ == 0,
    {
        Integer { negative: false, magnitude: Vec::new() }
    }

    /// The integer one.
    pub fn one() -> (integer: Integer)
        ensures
            integer@ == 1,
    {
        Integer::from_i64(1)
    }

    /// Whether the integer is below zero.
    pub fn is_negative(&self) -> (negative: bool)
        ensures
            negative == (self@ < 0),
    {
        proof {
            use_type_invariant(self);
            magnitude::lemma_value_zero(self.magnitude@);
        }
        self.negative
    }

    /// Whether the integer is zero.
    pub fn is_zero(&self) -> (zero: bool)
        ensures
            zero == (self@ == 0),
    {
        proof {
            use_type_invariant(self);
            magnitude::lemma_value_zero(self.magnitude@);
        }
        self.magnitude.len() == 0
    }

    /// The digits of the absolute value, least significant first and without
    /// a zero at the most significant end.
    pub fn magnitude(&self) -> (digits: &Vec<u32>)
        ensures
            normalized(digits@),
            digits_value(digits@) == absolute(self@),
    {
        proof {
            use_type_invariant(self);
        }
        &self.magnitude
    }

    /// A second integer of the same value.
    pub fn duplicate(&self) -> (copy: Integer)
        ensures
            copy@ == self@,
    {
        proof {
            use_type_invariant(self);
        }
        let magnitude = self.magnitude.clone();
        assert(magnitude@ =~= self.magnitude@);
        Integer { negative: self.negative, magnitude }
    }

    /// The absolute value.
    pub fn abs(&self) -> (size: Integer)
        ensures
            size@ == absolute(self@),
    {
        proof {
            use_type_invariant(self);
        }
        let magnitude = self.magnitude.clone();
        assert(magnitude@ =~= self.magnitude@);
        Integer { negative: false, magnitude }
    }

    /// The product of two integers.
    pub fn times(&self, factor: &Integer) -> (product: Integer)
        ensures
            product@ == self@ * factor@,
    {
        proof {
            use_type_invariant(self);
            use_type_invariant(factor);
        }
        let magnitude = magnitude::product(&self.magnitude, &factor.magnitude);
        let negative = magnitude.len() != 0 && self.negative != factor.negative;
        proof {
            magnitude::lemma_value_zero(magnitude@);
            let a = digits_value(self.magnitude@) as int;
            let b = digits_value(factor.magnitude@) as int;
            assert((-a) * b == -(a * b)) by (nonlinear_arith);
            assert(a * (-b) == -(a * b)) by (nonlinear_arith);
            assert((-a) * (-b) == a * b) by (nonlinear_arith);
        }
        Integer { negative, magnitude }
    }

    /// The integer multiplied by itself `exponent` times; any integer to the
    /// power zero is one.
    pub fn power(&self, exponent: u32) -> (result: Integer)
        ensures
            result@ == pow(self@, exponent as nat),
    {
        proof {
            use_type_invariant(self);
        }
        let magnitude = magnitude::power(&self.magnitude, exponent as u64);
        let negative = magnitude.len() != 0 && self.negative && exponent % 2 == 1;
        proof {
            magnitude::lemma_value_zero(magnitude@);
            lemma_pow_negated(digits_value(self.magnitude@) as int, exponent as nat);
        }
        Integer { negative, magnitude }
    }

    /// Number of decimal digits of the absolute value; zero has one.
    pub fn decimal_digits(&self) -> (count: usize)
        ensures
            count == digit_count(absolute(self@)),
    {
        proof {
            use_type_invariant(self);
        }
        magnitude::decimal_length(&self.magnitude)
    }
}

} // verus!
