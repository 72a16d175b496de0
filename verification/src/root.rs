use vstd::prelude::*;
use crate::arithmetic::{
    difference_outcome, quotient_outcome, round_outcome, with_prec_outcome,
};
use crate::decimal::{
    fulfils, get_prec, pow, pow_outcome, precision_of, scale_prec, scale_prec_outcome, Decimal,
    DecimalView, Expected, MAX_EXPONENT,
};
use crate::order::decimal_less;
use crate::error::BigDecimalMathError;
use crate::integer::{absolute, Integer};
use crate::magnitude::digit_count;

verus! {

/// What `root` gives back: the root, or the reason there is none.
pub type BigDecimalMathResult = Result<Decimal, BigDecimalMathError>;

/// Largest number of refinement steps that `root` takes before it gives up.
pub const MAX_ITERATIONS: u32 = 1_000;

/// Number of digits after the decimal point that the `n`-th root of `x` is
/// rounded to. The relative error allowed for the root is half a unit in the
/// last place of `x`, divided by `n` and by `x`; one half divided by that
/// error is `n` times the unscaled integer of `x`, and the number of digits
/// kept is the digit count of that product.
pub open spec fn err2prec_of(n: int, x: DecimalView) -> nat {
    digit_count(absolute(n * x.unscaled))
}

/// One refinement of the approximation `s`: the correction and the new
/// approximation.
pub struct Refinement {
    pub correction: DecimalView,
    pub next: DecimalView,
}

/// The estimate of the quotient `xhighpr / s^(n-1)` at `mc` significant
/// digits.
pub open spec fn estimate_outcome(s: DecimalView, xhighpr: DecimalView, n: int, mc: nat) -> Expected {
    match pow_outcome(s, n - 1) {
        Err(text) => Err(text),
        Ok(power) => match quotient_outcome(xhighpr, power) {
            Err(text) => Err(text),
            Ok(ratio) => with_prec_outcome(ratio, mc),
        },
    }
}

/// The correction `(s - estimate) / n`, at as many significant digits as the
/// difference `s - estimate` has.
pub open spec fn correction_outcome(s: DecimalView, estimate: DecimalView, n: int) -> Expected {
    match difference_outcome(s, estimate) {
        Err(text) => Err(text),
        Ok(gap) => match quotient_outcome(gap, DecimalView { unscaled: n, scale: 0 }) {
            Err(text) => Err(text),
            Ok(share) => with_prec_outcome(share, precision_of(gap)),
        },
    }
}

/// One step of Newton's method on `s^n - x`: the correction is taken off
/// the approximation.
pub open spec fn step_outcome(s: DecimalView, xhighpr: DecimalView, n: int, mc: nat) -> Result<
    Refinement,
    Seq<char>,
> {
    match estimate_outcome(s, xhighpr, n, mc) {
        Err(text) => Err(text),
        Ok(estimate) => match correction_outcome(s, estimate, n) {
            Err(text) => Err(text),
            Ok(correction) => match difference_outcome(s, correction) {
                Err(text) => Err(text),
                Ok(next) => Ok(Refinement { correction, next }),
            },
        },
    }
}

/// Whether the iteration may stop: the size of `c / s` is below the
/// tolerance `ulp(x) / (2 * n * x)`. With the divisions multiplied out this
/// reads `|c| * 2 * n * x < ulp(x) * |s|`; the scale of `x` stands on both
/// sides and is left out.
pub open spec fn converged_outcome(c: DecimalView, s: DecimalView, x: DecimalView, n: int) -> Result<
    bool,
    Seq<char>,
> {
    let left = DecimalView {
        unscaled: absolute(c.unscaled) * (2 * n * x.unscaled),
        scale: c.scale,
    };
    let right = DecimalView { unscaled: absolute(s.unscaled) as int, scale: s.scale };
    if s.unscaled == 0 {
        Err("division by zero"@)
    } else {
        Ok(decimal_less(left, right))
    }
}

/// The approximation at which the iteration stops, starting from `s` with
/// `budget` steps left.
pub open spec fn iteration_outcome(
    s: DecimalView,
    xhighpr: DecimalView,
    x: DecimalView,
    n: int,
    mc: nat,
    budget: nat,
) -> Expected
    decreases budget,
{
    if budget == 0 {
        Err("root iteration did not converge"@)
    } else {
        match step_outcome(s, xhighpr, n, mc) {
            Err(text) => Err(text),
            Ok(refinement) => match converged_outcome(refinement.correction, refinement.next, x, n) {
                Err(text) => Err(text),
                Ok(done) => if done {
                    Ok(refinement.next)
                } else {
                    iteration_outcome(refinement.next, xhighpr, x, n, mc, (budget - 1) as nat)
                },
            },
        }
    }
}

/// The iteration stops only at an approximation that a correction below the
/// tolerance has led to.
pub proof fn lemma_iteration_stops_converged(
    s: DecimalView,
    xhighpr: DecimalView,
    x: DecimalView,
    n: int,
    mc: nat,
    budget: nat,
)
    requires
        iteration_outcome(s, xhighpr, x, n, mc, budget) is Ok,
    ensures
        exists|c: DecimalView| #[trigger]
            converged_outcome(
                c,
                iteration_outcome(s, xhighpr, x, n, mc, budget)->Ok_0,
                x,
                n,
            ) == Ok::<bool, Seq<char>>(true),
    decreases budget,
{
    let refinement = step_outcome(s, xhighpr, n, mc)->Ok_0;
    let done = converged_outcome(refinement.correction, refinement.next, x, n)->Ok_0;
    if done {
        assert(converged_outcome(refinement.correction, refinement.next, x, n) == Ok::<
            bool,
            Seq<char>,
        >(true));
    } else {
        lemma_iteration_stops_converged(refinement.next, xhighpr, x, n, mc, (budget - 1) as nat);
    }
}

/// What `root` gives for the root index `n`, the number `x` and the first
/// approximation `seed`.
pub open spec fn root_outcome(n: int, x: DecimalView, seed: DecimalView) -> Expected {
    if x.unscaled < 0 {
        Err("negative argument of root"@)
    } else if n <= 0 {
        Err("negative power of root"@)
    } else if n == 1 {
        Ok(x)
    } else if n - 1 > MAX_EXPONENT {
        Err("Invalid power operation"@)
    } else {
        match scale_prec_outcome(x, 2) {
            Err(text) => Err(text),
            Ok(xhighpr) => if precision_of(x) + 2 > u64::MAX {
                Err("scale out of range"@)
            } else {
                match iteration_outcome(
                    seed,
                    xhighpr,
                    x,
                    n,
                    precision_of(x) + 2,
                    MAX_ITERATIONS as nat,
                ) {
                    Err(text) => Err(text),
                    Ok(s) => if err2prec_of(n, x) > i64::MAX {
                        Err("scale out of range"@)
                    } else {
                        round_outcome(s, err2prec_of(n, x) as int)
                    },
                }
            },
        }
    }
}

/// The first power of a number has that number as its first root: raising
/// to the power one and taking the root of index one both leave a
/// non-negative `x` as it is, whatever the first approximation.
pub proof fn lemma_root_recovers_first_power(x: DecimalView, seed: DecimalView)
    requires
        x.unscaled >= 0,
        i64::MIN <= x.scale <= i64::MAX,
    ensures
        pow_outcome(x, 1) == Ok::<DecimalView, Seq<char>>(x),
        root_outcome(1, x, seed) == Ok::<DecimalView, Seq<char>>(x),
{
    vstd::arithmetic::power::lemma_pow1(x.unscaled);
}

/// Number of digits after the decimal point that the `n`-th root of `x` is
/// rounded to.
pub fn err2prec(n: isize, x: &Decimal) -> (digits: usize)
    ensures
        digits == err2prec_of(n as int, x@),
{
    Integer::from_i64(n as i64).times(&x.unscaled).decimal_digits()
}

/// One step of Newton's method: from the approximation `s` to the
/// correction and the next approximation.
pub fn newton_step(s: &Decimal, xhighpr: &Decimal, n: isize, mc: u64) -> (result: Result<
    (Decimal, Decimal),
    BigDecimalMathError,
>)
    ensures
        match (result, step_outcome(s@, xhighpr@, n as int, mc as nat)) {
            (Ok(pair), Ok(refinement)) => pair.0@ == refinement.correction && pair.1@
                == refinement.next,
            (Err(error), Err(text)) => error.message() == text,
            _ => false,
        },
{
    if n < 1 || n > MAX_EXPONENT as isize + 1 {
        return Err(BigDecimalMathError::arithmetic("Invalid power operation"));
    }
    let power = pow(s, (n - 1) as i32)?;
    let ratio = xhighpr.divide(&power)?;
    let estimate = ratio.with_prec(mc)?;
    let gap = s.subtract(&estimate)?;
    let locmc: usize = get_prec(&gap);
    let nth = Decimal::new(Integer::from_i64(n as i64), 0);
    let share = gap.divide(&nth)?;
    let correction = share.with_prec(locmc as u64)?;
    let next = s.subtract(&correction)?;
    Ok((correction, next))
}

/// Whether the iteration may stop after the correction `c` has led to the
/// approximation `s`.
pub fn converged(c: &Decimal, s: &Decimal, x: &Decimal, n: isize) -> (result: Result<
    bool,
    BigDecimalMathError,
>)
    ensures
        match (result, converged_outcome(c@, s@, x@, n as int)) {
            (Ok(done), Ok(expected)) => done == expected,
            (Err(error), Err(text)) => error.message() == text,
            _ => false,
        },
{
    if s.is_zero() {
        return Err(BigDecimalMathError::arithmetic("division by zero"));
    }
    let factor = Integer::from_i64(2).times(&Integer::from_i64(n as i64)).times(&x.unscaled);
    let left = Decimal::new(c.unscaled.abs().times(&factor), c.scale);
    let right = s.abs();
    Ok(left.less_than(&right))
}

/// The `n`-th root of `x`, rounded to the precision that `x` itself implies,
/// by Newton's method from the first approximation `seed`.
///
/// A negative `x` and an `n` below one are refused. For `n` equal to one the
/// root is `x` itself, untouched. Otherwise the iteration runs at two digits
/// more than `x` has until the correction is small against the tolerance
/// `ulp(x) / (2 * n * x)`; it fails where an approximation becomes zero,
/// where a scale leaves the supported range, and where `MAX_ITERATIONS`
/// steps were not enough.
pub fn root(n: isize, x: Decimal, seed: Decimal) -> (result: BigDecimalMathResult)
    ensures
        fulfils(result, root_outcome(n as int, x@, seed@)),
        x@.unscaled < 0 || n <= 0 ==> result is Err,
        x@.unscaled >= 0 && n == 1 ==> result == Ok::<Decimal, BigDecimalMathError>(x),
        n >= 2 ==> (result matches Ok(found) ==> found@.scale == err2prec_of(n as int, x@)),
{
    if x.is_negative() {
        return Err(BigDecimalMathError::arithmetic("negative argument of root"));
    }
    if n <= 0 {
        return Err(BigDecimalMathError::arithmetic("negative power of root"));
    }
    if n == 1 {
        return Ok(x);
    }
    if n - 1 > MAX_EXPONENT as isize {
        return Err(BigDecimalMathError::arithmetic("Invalid power operation"));
    }
    let xhighpr = scale_prec(&x, 2)?;
    let digits: usize = get_prec(&x);
    if digits as u64 > u64::MAX - 2 {
        return Err(BigDecimalMathError::arithmetic("scale out of range"));
    }
    let mc: u64 = digits as u64 + 2;
    let mut s = seed;
    let mut budget: u32 = MAX_ITERATIONS;
    while budget > 0
        invariant
            2 <= n <= MAX_EXPONENT + 1,
            mc == precision_of(x@) + 2,
            iteration_outcome(s@, xhighpr@, x@, n as int, mc as nat, budget as nat)
                == iteration_outcome(
                seed@,
                xhighpr@,
                x@,
                n as int,
                mc as nat,
                MAX_ITERATIONS as nat,
            ),
            scale_prec_outcome(x@, 2) == Ok::<DecimalView, Seq<char>>(xhighpr@),
            x@.unscaled >= 0,
        decreases budget,
    {
        let (correction, next) = newton_step(&s, &xhighpr, n, mc)?;
        let done = converged(&correction, &next, &x, n)?;
        if done {
            let digits: usize = err2prec(n, &x);
            if digits as u64 > i64::MAX as u64 {
                return Err(BigDecimalMathError::arithmetic("scale out of range"));
            }
            return next.round(digits as i64);
        }
        s = next;
        budget = budget - 1;
    }
    Err(BigDecimalMathError::arithmetic("root iteration did not converge"))
}

} // verus!
