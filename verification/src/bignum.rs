//! Arbitrary-precision integer literals.
//!
//! The expression tree stores its integer literals as `num`'s `BigInt`.
//! The verifier sees that type through the declarations below; the
//! mathematical value a `BigInt` holds is named by `int_value`, and each
//! arithmetic wrapper states its result in terms of that name.

use num::bigint::BigInt;
use vstd::prelude::*;

verus! {

#[verifier::external_type_specification]
#[verifier::external_body]
pub struct ExBigInt(BigInt);

/// The mathematical integer that a `BigInt` holds.
pub uninterp spec fn int_value(b: BigInt) -> int;

pub open spec fn abs_int(a: int) -> int {
    if a < 0 {
        -a
    } else {
        a
    }
}

/// Integer division that rounds towards zero, as `BigInt` division does.
pub open spec fn trunc_div(a: int, b: int) -> int
    recommends
        b != 0,
{
    let q = abs_int(a) / abs_int(b);
    if (a < 0) != (b < 0) {
        -q
    } else {
        q
    }
}

/// Relies on num's `BigInt` addition: returns the sum of the two integers.
#[verifier::external_body]
pub(crate) fn big_add(a: &BigInt, b: &BigInt) -> (r: BigInt)
    ensures
        int_value(r) == int_value(*a) + int_value(*b),
{
    a + b
}

/// Relies on num's `BigInt` subtraction: returns the difference of the two
/// integers.
#[verifier::external_body]
pub(crate) fn big_sub(a: &BigInt, b: &BigInt) -> (r: BigInt)
    ensures
        int_value(r) == int_value(*a) - int_value(*b),
{
    a - b
}

/// Relies on num's `BigInt` multiplication: returns the product of the two
/// integers.
#[verifier::external_body]
pub(crate) fn big_mul(a: &BigInt, b: &BigInt) -> (r: BigInt)
    ensures
        int_value(r) == int_value(*a) * int_value(*b),
{
    a * b
}

/// Relies on num's `BigInt` division, which truncates towards zero and
/// panics on a zero divisor; the zero divisor is therefore excluded here.
#[verifier::external_body]
pub(crate) fn big_div(a: &BigInt, b: &BigInt) -> (r: BigInt)
    requires
        int_value(*b) != 0,
    ensures
        int_value(r) == trunc_div(int_value(*a), int_value(*b)),
{
    a / b
}

/// Relies on num's `BigInt` equality, which compares the canonical
/// sign-and-magnitude forms and so agrees with equality of the held values.
#[verifier::external_body]
pub(crate) fn big_eq(a: &BigInt, b: &BigInt) -> (r: bool)
    ensures
        r == (int_value(*a) == int_value(*b)),
{
    a == b
}

/// The character of one decimal digit.
pub open spec fn digit_char(d: nat) -> char {
    if d == 0 {
        '0'
    } else if d == 1 {
        '1'
    } else if d == 2 {
        '2'
    } else if d == 3 {
        '3'
    } else if d == 4 {
        '4'
    } else if d == 5 {
        '5'
    } else if d == 6 {
        '6'
    } else if d == 7 {
        '7'
    } else if d == 8 {
        '8'
    } else {
        '9'
    }
}

/// The decimal digits of a non-negative integer, most significant first,
/// without leading zeroes.
pub open spec fn dec_digits(n: nat) -> Seq<char>
    decreases n,
{
    if n < 10 {
        seq![digit_char(n)]
    } else {
        dec_digits(n / 10).push(digit_char(n % 10))
    }
}

/// The canonical decimal rendering of an integer: a minus sign for a
/// negative value, then its digits.
pub open spec fn dec_str(i: int) -> Seq<char> {
    if i < 0 {
        seq!['-'] + dec_digits((-i) as nat)
    } else {
        dec_digits(i as nat)
    }
}

/// Relies on num's `BigInt` rendering: the canonical decimal form, a
/// minus sign for negatives and no leading zeroes.
#[verifier::external_body]
pub(crate) fn big_to_str(b: &BigInt) -> (r: String)
    ensures
        r@ == dec_str(int_value(*b)),
{
    b.to_string()
}

/// Relies on num's `Zero::is_zero`, which tests for the canonical zero form.
#[verifier::external_body]
pub(crate) fn big_is_zero(b: &BigInt) -> (r: bool)
    ensures
        r == (int_value(*b) == 0),
{
    num::Zero::is_zero(b)
}

} // verus!
