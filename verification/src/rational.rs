//! Exact rational arithmetic, as far as the solvers need it.
//!
//! A `BigRational` is opaque to the verifier. Contracts speak of the number it
//! stands for, a `real`.

use num::BigRational;
use vstd::prelude::*;

verus! {

/// `num::bigint::BigInt`, an integer of any size. Nothing is said of what is
/// inside.
#[verifier::external_type_specification]
#[verifier::external_body]
pub struct ExBigInt(num::bigint::BigInt);

/// `num::rational::Ratio`, a numerator over a denominator. Nothing is said of
/// what is inside; `rational_value` names the number it stands for.
#[verifier::external_type_specification]
#[verifier::external_body]
#[verifier::reject_recursive_types(T)]
pub struct ExRatio<T>(num::rational::Ratio<T>);

/// The number that a ratio stands for: `Some(n / d)` for numerator `n` and
/// denominator `d > 0`, and `None` for any other denominator. `Ratio::new`
/// and the arithmetic of `Ratio` return ratios with a positive denominator;
/// only `Ratio::new_raw` can make another, on which arithmetic may panic and
/// comparison may err.
pub uninterp spec fn rational_value(r: BigRational) -> Option<real>;

/// `r` has a positive denominator, and so stands for a number.
pub open spec fn is_number(r: BigRational) -> bool {
    rational_value(r) is Some
}

/// The number `r` stands for.
pub open spec fn value_of(r: BigRational) -> real
    recommends
        is_number(r),
{
    rational_value(r).unwrap()
}

/// Every entry of `s` stands for a number.
pub open spec fn all_numbers(s: Seq<BigRational>) -> bool {
    forall|i: int| 0 <= i < s.len() ==> is_number(#[trigger] s[i])
}

/// `Signed::is_positive` of the `BigInt` that `Ratio::denom` hands out: tells
/// whether the denominator is positive, and so whether the ratio stands for
/// a number.
#[verifier::external_body]
pub(crate) fn rational_is_number(r: &BigRational) -> (ok: bool)
    ensures
        ok == is_number(*r),
{
    num::Signed::is_positive(r.denom())
}

/// `&a + &b` of `num::rational::Ratio<BigInt>`: on two ratios with positive
/// denominators the result is their exact sum, again with a positive
/// denominator. `BigInt` arithmetic does not overflow.
#[verifier::external_body]
pub(crate) fn rational_add(a: &BigRational, b: &BigRational) -> (sum: BigRational)
    requires
        is_number(*a),
        is_number(*b),
    ensures
        rational_value(sum) == Some(value_of(*a) + value_of(*b)),
{
    a + b
}

/// `a < b` of `num::rational::Ratio<BigInt>`: on two ratios with positive
/// denominators, the order of the two numbers.
#[verifier::external_body]
pub(crate) fn rational_lt(a: &BigRational, b: &BigRational) -> (less: bool)
    requires
        is_number(*a),
        is_number(*b),
    ensures
        less == (value_of(*a) < value_of(*b)),
{
    a < b
}

/// `Zero::zero` of `num::rational::Ratio<BigInt>`: the ratio of zero over
/// one.
#[verifier::external_body]
pub(crate) fn rational_zero() -> (zero: BigRational)
    ensures
        rational_value(zero) == Some(0real),
{
    num::Zero::zero()
}

/// `&a - &b` of `num::rational::Ratio<BigInt>`: on two ratios with positive
/// denominators the result is their exact difference, again with a positive
/// denominator.
#[verifier::external_body]
pub(crate) fn rational_sub(a: &BigRational, b: &BigRational) -> (difference: BigRational)
    requires
        is_number(*a),
        is_number(*b),
    ensures
        rational_value(difference) == Some(value_of(*a) - value_of(*b)),
{
    a - b
}

/// `&a * &b` of `num::rational::Ratio<BigInt>`: on two ratios with positive
/// denominators the result is their exact product, again with a positive
/// denominator.
#[verifier::external_body]
pub(crate) fn rational_mul(a: &BigRational, b: &BigRational) -> (product: BigRational)
    requires
        is_number(*a),
        is_number(*b),
    ensures
        rational_value(product) == Some(value_of(*a) * value_of(*b)),
{
    a * b
}

/// `&a / &b` of `num::rational::Ratio<BigInt>`: on two ratios with positive
/// denominators, the second other than zero, the result is their exact
/// quotient, again with a positive denominator. Division by zero panics.
#[verifier::external_body]
pub(crate) fn rational_div(a: &BigRational, b: &BigRational) -> (quotient: BigRational)
    requires
        is_number(*a),
        is_number(*b),
        value_of(*b) != 0real,
    ensures
        rational_value(quotient) == Some(value_of(*a) / value_of(*b)),
{
    a / b
}

} // verus!
