use vstd::prelude::*;
use vstd::arithmetic::power::{lemma_pow_positive, pow};
use bigdecimal::Pow;
use num_bigint::BigUint;

verus! {

/// The base of the digits a magnitude is stored in: each digit is a `u32`.
pub open spec fn radix() -> int {
    0x1_0000_0000
}

/// The natural number that a sequence of base-2^32 digits stands for, least
/// significant digit first.
pub open spec fn digits_value(digits: Seq<u32>) -> nat
    decreases digits.len(),
{
    if digits.len() == 0 {
        0
    } else {
        (digits[0] as nat) + 0x1_0000_0000 * digits_value(digits.skip(1))
    }
}

/// A digit sequence is normalized when it carries no zero digit at its most
/// significant end; zero is the empty sequence.
pub open spec fn normalized(digits: Seq<u32>) -> bool {
    digits.len() == 0 || digits.last() != 0
}

/// Number of decimal digits needed to write `n`; zero takes one digit.
pub open spec fn digit_count(n: nat) -> nat
    decreases n,
{
    if n < 10 {
        1
    } else {
        1 + digit_count(n / 10)
    }
}

/// `radix()` raised to `e` is positive and unfolds one factor at a time.
pub proof fn lemma_radix_power(e: nat)
    ensures
        pow(radix(), e) > 0,
        pow(radix(), e + 1) == radix() * pow(radix(), e),
        pow(radix(), 0) == 1,
{
    lemma_pow_positive(radix(), e);
    reveal(pow);
}

/// A value of `len` digits lies below `radix()^len`.
pub proof fn lemma_value_upper_bound(digits: Seq<u32>)
    ensures
        digits_value(digits) < pow(radix(), digits.len()),
    decreases digits.len(),
{
    if digits.len() == 0 {
        lemma_radix_power(0);
    } else {
        let rest = digits.skip(1);
        lemma_value_upper_bound(rest);
        lemma_radix_power(rest.len());
        let high = digits_value(rest) as int;
        let bound = pow(radix(), rest.len());
        assert(radix() * (high + 1) <= radix() * bound) by (nonlinear_arith)
            requires
                high + 1 <= bound,
        ;
        assert(radix() * (high + 1) == radix() * high + radix()) by (nonlinear_arith);
    }
}

/// Splitting a digit sequence at `k` splits its value at `radix()^k`.
pub proof fn lemma_value_split(digits: Seq<u32>, k: int)
    requires
        0 <= k <= digits.len(),
    ensures
        digits_value(digits) == digits_value(digits.subrange(0, k)) + pow(radix(), k as nat)
            * digits_value(digits.subrange(k, digits.len() as int)),
    decreases k,
{
    let low = digits.subrange(0, k);
    let high = digits.subrange(k, digits.len() as int);
    if k == 0 {
        lemma_radix_power(0);
        assert(high =~= digits);
        assert(low.len() == 0);
        let unit = pow(radix(), 0);
        let whole = digits_value(high) as int;
        assert(unit * whole == whole) by (nonlinear_arith)
            requires
                unit == 1,
        ;
    } else {
        let rest = digits.skip(1);
        lemma_value_split(rest, k - 1);
        assert(rest.subrange(0, k - 1) =~= low.skip(1));
        assert(rest.subrange(k - 1, rest.len() as int) =~= high);
        lemma_radix_power((k - 1) as nat);
        let a = digits_value(low.skip(1)) as int;
        let b = digits_value(high) as int;
        let p = pow(radix(), (k - 1) as nat);
        assert(pow(radix(), k as nat) == radix() * p);
        assert(digits_value(rest) == a + p * b);
        assert(digits_value(digits) == digits[0] + radix() * digits_value(rest));
        assert(digits_value(low) == low[0] + radix() * a);
        let q = pow(radix(), k as nat);
        assert(radix() * (a + p * b) == radix() * a + q * b) by (nonlinear_arith)
            requires
                q == radix() * p,
        ;
    }
}

/// Appending a most significant digit adds that digit times `radix()^len`.
pub proof fn lemma_value_push(digits: Seq<u32>, top: u32)
    ensures
        digits_value(digits.push(top)) == digits_value(digits) + pow(radix(), digits.len())
            * top,
{
    let extended = digits.push(top);
    lemma_value_split(extended, digits.len() as int);
    assert(extended.subrange(0, digits.len() as int) =~= digits);
    let high = extended.subrange(digits.len() as int, extended.len() as int);
    assert(high =~= seq![top]);
    assert(high.skip(1).len() == 0);
    assert(digits_value(high.skip(1)) == 0);
    assert(digits_value(high) == top as nat);
}

/// A non-empty normalized sequence of `len` digits is worth at least
/// `radix()^(len - 1)`.
pub proof fn lemma_value_lower_bound(digits: Seq<u32>)
    requires
        digits.len() > 0,
        digits.last() != 0,
    ensures
        digits_value(digits) >= pow(radix(), (digits.len() - 1) as nat),
        digits_value(digits) > 0,
{
    let body = digits.drop_last();
    assert(body.push(digits.last()) =~= digits);
    lemma_value_push(body, digits.last());
    lemma_radix_power(body.len());
    let p = pow(radix(), body.len());
    let top = digits.last() as int;
    assert(p * top >= p) by (nonlinear_arith)
        requires
            p > 0,
            top >= 1,
    ;
}

/// Dropping a zero at the most significant end leaves the value unchanged.
pub proof fn lemma_value_drop_zero(digits: Seq<u32>)
    requires
        digits.len() > 0,
        digits.last() == 0,
    ensures
        digits_value(digits.drop_last()) == digits_value(digits),
{
    let body = digits.drop_last();
    assert(body.push(digits.last()) =~= digits);
    lemma_value_push(body, digits.last());
    let p = pow(radix(), body.len());
    assert(p * 0 == 0) by (nonlinear_arith);
}

/// Among normalized sequences only the empty one is worth zero.
pub proof fn lemma_value_zero(digits: Seq<u32>)
    requires
        normalized(digits),
    ensures
        digits_value(digits) == 0 <==> digits.len() == 0,
{
    if digits.len() > 0 {
        lemma_value_lower_bound(digits);
    }
}

/// Removes the zero digits at the most significant end.
pub fn trimmed(digits: Vec<u32>) -> (trimmed: Vec<u32>)
    ensures
        normalized(trimmed@),
        digits_value(trimmed@) == digits_value(digits@),
{
    let mut digits = digits;
    let ghost given = digits@;
    while digits.len() > 0 && digits[digits.len() - 1] == 0
        invariant
            digits_value(digits@) == digits_value(given),
        decreases digits.len(),
    {
        proof {
            lemma_value_drop_zero(digits@);
        }
        digits.pop();
    }
    digits
}

/// The digits of a machine word.
pub fn from_u64(value: u64) -> (digits: Vec<u32>)
    ensures
        normalized(digits@),
        digits_value(digits@) == value,
{
    let low: u32 = (value & 0xffff_ffff) as u32;
    let high: u32 = (value >> 32) as u32;
    assert(value == (value & 0xffff_ffff) + 0x1_0000_0000 * (value >> 32)) by (bit_vector);
    assert((value & 0xffff_ffff) <= 0xffff_ffff && (value >> 32) <= 0xffff_ffff) by (bit_vector);
    let mut digits: Vec<u32> = Vec::new();
    if high != 0 {
        digits.push(low);
        digits.push(high);
        proof {
            assert(digits@.skip(1) =~= seq![high]);
            assert(digits@.skip(1).skip(1).len() == 0);
            assert(digits_value(digits@.skip(1).skip(1)) == 0);
            assert(digits_value(digits@.skip(1)) == high as nat);
        }
    } else if low != 0 {
        digits.push(low);
        proof {
            assert(digits@.skip(1).len() == 0);
            assert(digits_value(digits@.skip(1)) == 0);
        }
    }
    digits
}

/// The value of the digits from position `from` upwards.
pub open spec fn upper_value(digits: Seq<u32>, from: int) -> nat {
    digits_value(digits.subrange(from, digits.len() as int))
}

/// Taking one more digit into the upper part shifts what was there by one
/// digit and adds the new one.
pub proof fn lemma_upper_step(digits: Seq<u32>, from: int)
    requires
        0 < from <= digits.len(),
    ensures
        upper_value(digits, from - 1) == digits[from - 1] + radix() * upper_value(digits, from),
{
    let wider = digits.subrange(from - 1, digits.len() as int);
    assert(wider.skip(1) =~= digits.subrange(from, digits.len() as int));
}

/// A value is its upper part times a power of the radix, plus less than that
/// power.
pub proof fn lemma_upper_bounds(digits: Seq<u32>, from: int)
    requires
        0 <= from <= digits.len(),
    ensures
        pow(radix(), from as nat) > 0,
        pow(radix(), from as nat) * upper_value(digits, from) <= digits_value(digits),
        digits_value(digits) < pow(radix(), from as nat) * upper_value(digits, from) + pow(
            radix(),
            from as nat,
        ),
{
    lemma_value_split(digits, from);
    lemma_value_upper_bound(digits.subrange(0, from));
    lemma_radix_power(from as nat);
}

/// How two natural numbers stand to each other: -1 where the first is the
/// smaller, 0 where they are equal, 1 where it is the larger.
pub open spec fn order_of(a: nat, b: nat) -> int {
    if a < b {
        -1
    } else if a == b {
        0
    } else {
        1
    }
}

/// Compares two magnitudes: by their length once the zeros at the most
/// significant end are set aside, then digit by digit from that end.
pub fn compare(a: &Vec<u32>, b: &Vec<u32>) -> (order: i32)
    ensures
        order == order_of(digits_value(a@), digits_value(b@)),
{
    let a_copy = a.clone();
    let b_copy = b.clone();
    assert(a_copy@ =~= a@ && b_copy@ =~= b@);
    let left = trimmed(a_copy);
    let right = trimmed(b_copy);
    if left.len() < right.len() {
        proof {
            lemma_value_upper_bound(left@);
            lemma_value_lower_bound(right@);
            vstd::arithmetic::power::lemma_pow_increases(
                radix() as nat,
                left.len() as nat,
                (right.len() - 1) as nat,
            );
        }
        return -1;
    }
    if left.len() > right.len() {
        proof {
            lemma_value_upper_bound(right@);
            lemma_value_lower_bound(left@);
            vstd::arithmetic::power::lemma_pow_increases(
                radix() as nat,
                right.len() as nat,
                (left.len() - 1) as nat,
            );
        }
        return 1;
    }
    let mut i: usize = left.len();
    while i > 0
        invariant
            i <= left.len(),
            left.len() == right.len(),
            digits_value(left@) == digits_value(a@),
            digits_value(right@) == digits_value(b@),
            upper_value(left@, i as int) == upper_value(right@, i as int),
        decreases i,
    {
        proof {
            lemma_upper_step(left@, i as int);
            lemma_upper_step(right@, i as int);
        }
        i = i - 1;
        if left[i] != right[i] {
            proof {
                lemma_upper_bounds(left@, i as int);
                lemma_upper_bounds(right@, i as int);
                let p = pow(radix(), i as nat);
                let ua = upper_value(left@, i as int) as int;
                let ub = upper_value(right@, i as int) as int;
                if left[i as int] < right[i as int] {
                    assert(p * ua + p <= p * ub) by (nonlinear_arith)
                        requires
                            p > 0,
                            ua + 1 <= ub,
                    ;
                } else {
                    assert(p * ub + p <= p * ua) by (nonlinear_arith)
                        requires
                            p > 0,
                            ub + 1 <= ua,
                    ;
                }
            }
            if left[i] < right[i] {
                return -1;
            } else {
                return 1;
            }
        }
    }
    proof {
        assert(left@.subrange(0, left.len() as int) =~= left@);
        assert(right@.subrange(0, right.len() as int) =~= right@);
    }
    0
}

/// The machine word a magnitude is worth, when it fits in one.
pub fn to_u64(digits: &Vec<u32>) -> (value: Option<u64>)
    ensures
        value matches Some(word) ==> word == digits_value(digits@),
        value is None <==> digits_value(digits@) > u64::MAX,
{
    let copy = digits.clone();
    assert(copy@ =~= digits@);
    let digits = trimmed(copy);
    if digits.len() == 0 {
        Some(0)
    } else if digits.len() == 1 {
        proof {
            assert(digits@.skip(1).len() == 0);
            assert(digits_value(digits@.skip(1)) == 0);
        }
        Some(digits[0] as u64)
    } else if digits.len() == 2 {
        proof {
            assert(digits@.skip(1).skip(1).len() == 0);
            assert(digits_value(digits@.skip(1).skip(1)) == 0);
            assert(digits_value(digits@.skip(1)) == digits@[1] as nat);
        }
        Some(digits[0] as u64 + 0x1_0000_0000u64 * (digits[1] as u64))
    } else {
        proof {
            lemma_value_lower_bound(digits@);
            lemma_radix_power(0);
            lemma_radix_power(1);
            lemma_radix_power(2);
            if digits.len() > 3 {
                vstd::arithmetic::power::lemma_pow_increases(
                    radix() as nat,
                    2,
                    (digits.len() - 1) as nat,
                );
            }
        }
        None
    }
}

/// A number lies between the two powers of ten that its digit count names.
pub proof fn lemma_digit_count_bounds(n: nat)
    ensures
        digit_count(n) >= 1,
        n < pow(10, digit_count(n)),
        n > 0 ==> pow(10, (digit_count(n) - 1) as nat) <= n,
    decreases n,
{
    reveal(pow);
    if n < 10 {
        assert(pow(10, 1) == 10 * pow(10, 0));
        assert(pow(10, 0) == 1);
    } else {
        let rest = n / 10;
        lemma_digit_count_bounds(rest);
        let d = digit_count(rest);
        assert(pow(10, d + 1) == 10 * pow(10, d));
        assert(pow(10, d) == 10 * pow(10, (d - 1) as nat));
    }
}

/// The digit count of a positive number is one more than its logarithm to
/// the base ten, rounded down.
pub proof fn lemma_digit_count_is_logarithm(n: nat)
    requires
        n > 0,
    ensures
        digit_count(n) == vstd::arithmetic::logarithm::log(10, n as int) + 1,
    decreases n,
{
    reveal(vstd::arithmetic::logarithm::log);
    if n >= 10 {
        lemma_digit_count_is_logarithm(n / 10);
    }
}

/// `10^k` has `k + 1` decimal digits.
pub proof fn lemma_digit_count_of_power(k: nat)
    ensures
        pow(10, k) > 0,
        digit_count(pow(10, k) as nat) == k + 1,
    decreases k,
{
    reveal(pow);
    if k > 0 {
        lemma_digit_count_of_power((k - 1) as nat);
        assert(pow(10, k) == 10 * pow(10, (k - 1) as nat));
    }
}

/// Multiplies two magnitudes with `BigUint`'s `*`. The contract claims that
/// the digits handed back are those of the product of the two values, with
/// no zero at the most significant end.
#[verifier::external_body]
pub(crate) fn product(a: &Vec<u32>, b: &Vec<u32>) -> (digits: Vec<u32>)
    ensures
        normalized(digits@),
        digits_value(digits@) == digits_value(a@) * digits_value(b@),
{
    (BigUint::from_slice(a) * BigUint::from_slice(b)).to_u32_digits()
}

/// Adds two magnitudes with `BigUint`'s `+`. The contract claims that the
/// digits handed back are those of the sum, with no zero at the most
/// significant end.
#[verifier::external_body]
pub(crate) fn sum(a: &Vec<u32>, b: &Vec<u32>) -> (digits: Vec<u32>)
    ensures
        normalized(digits@),
        digits_value(digits@) == digits_value(a@) + digits_value(b@),
{
    (BigUint::from_slice(a) + BigUint::from_slice(b)).to_u32_digits()
}

/// Divides one magnitude by another with `BigUint`'s `/`, which panics on a
/// zero divisor. The contract claims that the digits handed back are those
/// of the quotient rounded down, with no zero at the most significant end.
#[verifier::external_body]
pub(crate) fn quotient(a: &Vec<u32>, b: &Vec<u32>) -> (digits: Vec<u32>)
    requires
        digits_value(b@) > 0,
    ensures
        normalized(digits@),
        digits_value(digits@) == digits_value(a@) / digits_value(b@),
{
    (BigUint::from_slice(a) / BigUint::from_slice(b)).to_u32_digits()
}

/// Takes the remainder of one magnitude by another with `BigUint`'s `%`,
/// which panics on a zero divisor. The contract claims that the digits
/// handed back are those of the remainder, with no zero at the most
/// significant end.
#[verifier::external_body]
pub(crate) fn remainder(a: &Vec<u32>, b: &Vec<u32>) -> (digits: Vec<u32>)
    requires
        digits_value(b@) > 0,
    ensures
        normalized(digits@),
        digits_value(digits@) == digits_value(a@) % digits_value(b@),
{
    (BigUint::from_slice(a) % BigUint::from_slice(b)).to_u32_digits()
}

/// Raises a magnitude to a power with `BigUint`'s `Pow::pow`. The contract
/// claims that the digits handed back are those of the value multiplied by
/// itself `exponent` times, one for the exponent zero, with no zero at the
/// most significant end.
#[verifier::external_body]
pub(crate) fn power(a: &Vec<u32>, exponent: u64) -> (digits: Vec<u32>)
    ensures
        normalized(digits@),
        digits_value(digits@) == pow(digits_value(a@) as int, exponent as nat),
{
    Pow::pow(BigUint::from_slice(a), exponent).to_u32_digits()
}

/// Writes a magnitude in decimal through `BigUint`'s `Display` and measures
/// the text. The contract claims that the length is the number of decimal
/// digits of the value, one for zero.
#[verifier::external_body]
pub(crate) fn decimal_length(a: &Vec<u32>) -> (length: usize)
    ensures
        length == digit_count(digits_value(a@)),
{
    BigUint::from_slice(a).to_string().len()
}

} // verus!
