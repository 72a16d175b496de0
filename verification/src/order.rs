use vstd::prelude::*;
use vstd::arithmetic::power::pow;
use crate::decimal::{denominator, numerator, Decimal, DecimalView};
use crate::integer::absolute;
use crate::magnitude::{digit_count, lemma_digit_count_bounds};

verus! {

/// Whether `left` is worth less than `right`.
pub open spec fn decimal_less(left: DecimalView, right: DecimalView) -> bool {
    if left.scale >= right.scale {
        left.unscaled < right.unscaled * pow(10, (left.scale - right.scale) as nat)
    } else {
        left.unscaled * pow(10, (right.scale - left.scale) as nat)
            < right.unscaled
    }
}

/// The order of decimals is the order of the fractions they stand for: with
/// positive denominators, `a / b < c / d` exactly where `a * d < c * b`.
pub proof fn lemma_less_is_fraction_order(left: DecimalView, right: DecimalView)
    ensures
        denominator(left) > 0,
        denominator(right) > 0,
        decimal_less(left, right) == (numerator(left) * denominator(right) < numerator(right)
            * denominator(left)),
{
    let a = left.unscaled;
    let b = right.unscaled;
    if left.scale > 0 {
        vstd::arithmetic::power::lemma_pow_positive(10, left.scale as nat);
    }
    if right.scale > 0 {
        vstd::arithmetic::power::lemma_pow_positive(10, right.scale as nat);
    }
    if left.scale >= right.scale {
        let gap = (left.scale - right.scale) as nat;
        let g = pow(10, gap);
        if right.scale > 0 {
            // both scales positive: multiply through by the smaller denominator
            let low = right.scale as nat;
            let l = pow(10, low);
            let h = pow(10, left.scale as nat);
            vstd::arithmetic::power::lemma_pow_adds(10, gap, low);
            assert((a < b * g) == (a * l < b * h)) by (nonlinear_arith)
                requires
                    l > 0,
                    h == g * l,
            ;
        } else if left.scale >= 0 {
            // only the left has digits after the point
            let up = (-right.scale) as nat;
            let u = pow(10, up);
            let h = pow(10, left.scale as nat);
            vstd::arithmetic::power::lemma_pow_adds(10, up, left.scale as nat);
            vstd::arithmetic::power::lemma_pow0(10);
            assert(b * g == (b * u) * h && a * 1 == a) by (nonlinear_arith)
                requires
                    g == u * h,
            ;
        } else {
            // both scales negative: multiply through by the smaller factor
            let small = (-left.scale) as nat;
            let big = (-right.scale) as nat;
            let m = pow(10, small);
            let n = pow(10, big);
            vstd::arithmetic::power::lemma_pow_positive(10, small);
            vstd::arithmetic::power::lemma_pow_adds(10, gap, small);
            assert((a < b * g) == ((a * m) * 1 < (b * n) * 1)) by (nonlinear_arith)
                requires
                    m > 0,
                    n == g * m,
            ;
        }
    } else {
        let gap = (right.scale - left.scale) as nat;
        let g = pow(10, gap);
        if left.scale > 0 {
            let low = left.scale as nat;
            let l = pow(10, low);
            let h = pow(10, right.scale as nat);
            vstd::arithmetic::power::lemma_pow_adds(10, gap, low);
            assert((a * g < b) == (a * h < b * l)) by (nonlinear_arith)
                requires
                    l > 0,
                    h == g * l,
            ;
        } else if right.scale >= 0 {
            let up = (-left.scale) as nat;
            let u = pow(10, up);
            let h = pow(10, right.scale as nat);
            vstd::arithmetic::power::lemma_pow_adds(10, up, right.scale as nat);
            vstd::arithmetic::power::lemma_pow0(10);
            assert(a * g == (a * u) * h && b * 1 == b) by (nonlinear_arith)
                requires
                    g == u * h,
            ;
        } else {
            let small = (-right.scale) as nat;
            let big = (-left.scale) as nat;
            let m = pow(10, small);
            let n = pow(10, big);
            vstd::arithmetic::power::lemma_pow_positive(10, small);
            vstd::arithmetic::power::lemma_pow_adds(10, gap, small);
            assert((a * g < b) == ((a * n) * 1 < (b * m) * 1)) by (nonlinear_arith)
                requires
                    m > 0,
                    n == g * m,
            ;
        }
    }
}

/// Whether `left * 10^(-left_scale)` is less than `right * 10^(-right_scale)`.
pub open spec fn size_less(left: nat, left_scale: int, right: nat, right_scale: int) -> bool {
    if left_scale >= right_scale {
        left < right * pow(10, (left_scale - right_scale) as nat)
    } else {
        left * pow(10, (right_scale - left_scale) as nat) < right
    }
}

/// The order of two decimals follows from their signs and the order of
/// their sizes.
pub proof fn lemma_less_by_sizes(left: DecimalView, right: DecimalView)
    ensures
        left.unscaled < 0 && right.unscaled >= 0 ==> decimal_less(left, right),
        left.unscaled >= 0 && right.unscaled < 0 ==> !decimal_less(left, right),
        left.unscaled >= 0 && right.unscaled >= 0 ==> decimal_less(left, right) == size_less(
            absolute(left.unscaled),
            left.scale,
            absolute(right.unscaled),
            right.scale,
        ),
        left.unscaled < 0 && right.unscaled < 0 ==> decimal_less(left, right) == size_less(
            absolute(right.unscaled),
            right.scale,
            absolute(left.unscaled),
            left.scale,
        ),
{
    let a = left.unscaled;
    let b = right.unscaled;
    if left.scale >= right.scale {
        let p = pow(10, (left.scale - right.scale) as nat);
        vstd::arithmetic::power::lemma_pow_positive(10, (left.scale - right.scale) as nat);
        assert(b >= 0 ==> b * p >= 0) by (nonlinear_arith)
            requires
                p > 0,
        ;
        assert(b < 0 ==> b * p < 0) by (nonlinear_arith)
            requires
                p > 0,
        ;
        assert((-b) * p == -(b * p)) by (nonlinear_arith);
        if left.scale == right.scale {
            vstd::arithmetic::power::lemma_pow0(10);
            assert((-a) * p == -a && (-b) * p == -b) by (nonlinear_arith)
                requires
                    p == 1,
            ;
        }
    } else {
        let p = pow(10, (right.scale - left.scale) as nat);
        vstd::arithmetic::power::lemma_pow_positive(10, (right.scale - left.scale) as nat);
        assert(a >= 0 ==> a * p >= 0) by (nonlinear_arith)
            requires
                p > 0,
        ;
        assert(a < 0 ==> a * p < 0) by (nonlinear_arith)
            requires
                p > 0,
        ;
        assert((-a) * p == -(a * p)) by (nonlinear_arith);
    }
}

/// Where two sizes do not reach the same power of ten, the one that reaches
/// further is the larger: `digit_count - scale` is the number of digits
/// before the decimal point.
pub proof fn lemma_size_order_by_digits(left: nat, left_scale: int, right: nat, right_scale: int)
    requires
        left > 0,
        right > 0,
    ensures
        digit_count(left) - left_scale < digit_count(right) - right_scale ==> size_less(
            left,
            left_scale,
            right,
            right_scale,
        ),
        digit_count(left) - left_scale > digit_count(right) - right_scale ==> !size_less(
            left,
            left_scale,
            right,
            right_scale,
        ),
{
    let dl = digit_count(left);
    let dr = digit_count(right);
    lemma_digit_count_bounds(left);
    lemma_digit_count_bounds(right);
    let low_left = pow(10, (dl - 1) as nat);
    let high_left = pow(10, dl);
    let low_right = pow(10, (dr - 1) as nat);
    let high_right = pow(10, dr);
    if left_scale >= right_scale {
        let shift = (left_scale - right_scale) as nat;
        let p = pow(10, shift);
        vstd::arithmetic::power::lemma_pow_positive(10, shift);
        if dl - left_scale < dr - right_scale {
            vstd::arithmetic::power::lemma_pow_increases(10, dl, ((dr - 1) + shift) as nat);
            vstd::arithmetic::power::lemma_pow_adds(10, (dr - 1) as nat, shift);
            assert(low_right * p <= right * p) by (nonlinear_arith)
                requires
                    low_right <= right,
                    p > 0,
            ;
        } else if dl - left_scale > dr - right_scale {
            vstd::arithmetic::power::lemma_pow_increases(10, dr + shift, (dl - 1) as nat);
            vstd::arithmetic::power::lemma_pow_adds(10, dr, shift);
            assert(right * p < high_right * p) by (nonlinear_arith)
                requires
                    right < high_right,
                    p > 0,
            ;
        }
    } else {
        let shift = (right_scale - left_scale) as nat;
        let p = pow(10, shift);
        vstd::arithmetic::power::lemma_pow_positive(10, shift);
        if dl - left_scale < dr - right_scale {
            vstd::arithmetic::power::lemma_pow_increases(10, dl + shift, (dr - 1) as nat);
            vstd::arithmetic::power::lemma_pow_adds(10, dl, shift);
            assert(left * p < high_left * p) by (nonlinear_arith)
                requires
                    left < high_left,
                    p > 0,
            ;
        } else if dl - left_scale > dr - right_scale {
            vstd::arithmetic::power::lemma_pow_increases(10, dr, ((dl - 1) + shift) as nat);
            vstd::arithmetic::power::lemma_pow_adds(10, (dl - 1) as nat, shift);
            assert(low_left * p <= left * p) by (nonlinear_arith)
                requires
                    low_left <= left,
                    p > 0,
            ;
        }
    }
}

/// Whether the size of `left` is less than the size of `right`, signs set
/// aside. The digits before the decimal point decide where their numbers
/// differ; otherwise the operand of the smaller scale is brought to the
/// scale of the other and the integers are compared.
fn size_is_less(left: &Decimal, right: &Decimal) -> (less: bool)
    ensures
        less == size_less(
            absolute(left@.unscaled),
            left@.scale,
            absolute(right@.unscaled),
            right@.scale,
        ),
{
    proof {
        vstd::arithmetic::power::lemma_pow_positive(
            10,
            (if left.scale >= right.scale {
                left.scale - right.scale
            } else {
                right.scale - left.scale
            }) as nat,
        );
    }
    if right.unscaled.is_zero() {
        proof {
            let p = pow(
                10,
                (if left.scale >= right.scale {
                    left.scale - right.scale
                } else {
                    right.scale - left.scale
                }) as nat,
            );
            let size = absolute(left@.unscaled) as int;
            assert(0 * p == 0 && size * p >= 0) by (nonlinear_arith)
                requires
                    p > 0,
                    size >= 0,
            ;
        }
        return false;
    }
    if left.unscaled.is_zero() {
        proof {
            let p = pow(
                10,
                (if left.scale >= right.scale {
                    left.scale - right.scale
                } else {
                    right.scale - left.scale
                }) as nat,
            );
            let size = absolute(right@.unscaled) as int;
            assert(0 * p == 0 && size * p > 0) by (nonlinear_arith)
                requires
                    p > 0,
                    size > 0,
            ;
        }
        return true;
    }
    let left_reach: i128 = left.unscaled.decimal_digits() as i128 - left.scale as i128;
    let right_reach: i128 = right.unscaled.decimal_digits() as i128 - right.scale as i128;
    proof {
        lemma_size_order_by_digits(
            absolute(left@.unscaled),
            left@.scale,
            absolute(right@.unscaled),
            right@.scale,
        );
    }
    if left_reach < right_reach {
        return true;
    }
    if left_reach > right_reach {
        return false;
    }
    let ten = crate::magnitude::from_u64(10);
    if left.scale >= right.scale {
        let shift: u64 = (left.scale as i128 - right.scale as i128) as u64;
        let factor = crate::magnitude::power(&ten, shift);
        let scaled = crate::magnitude::product(right.unscaled.magnitude(), &factor);
        crate::magnitude::compare(left.unscaled.magnitude(), &scaled) < 0
    } else {
        let shift: u64 = (right.scale as i128 - left.scale as i128) as u64;
        let factor = crate::magnitude::power(&ten, shift);
        let scaled = crate::magnitude::product(left.unscaled.magnitude(), &factor);
        crate::magnitude::compare(&scaled, right.unscaled.magnitude()) < 0
    }
}

impl Decimal {
    /// Whether the decimal is worth less than `other`.
    pub fn less_than(&self, other: &Decimal) -> (less: bool)
        ensures
            less == decimal_less(self@, other@),
    {
        proof {
            lemma_less_by_sizes(self@, other@);
        }
        if self.unscaled.is_negative() != other.unscaled.is_negative() {
            self.unscaled.is_negative()
        } else if self.unscaled.is_negative() {
            size_is_less(other, self)
        } else {
            size_is_less(self, other)
        }
    }
}

} // verus!
