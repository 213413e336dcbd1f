//! Arbitrary-precision counters.
//!
//! The counts grow exponentially with tree size, so they are held in
//! `dashu_int::UBig`, an unsigned big integer. The type is opaque to the
//! verifier; `big_nat` names the natural number a counter holds, and every
//! trusted wrapper below states its effect through that name.

use vstd::prelude::*;

use dashu_int::UBig;

verus! {

#[verifier::external_type_specification]
#[verifier::external_body]
pub struct ExUBig(UBig);

/// The natural number held by an arbitrary-precision counter.
pub uninterp spec fn big_nat(x: UBig) -> nat;

/// The decimal digits of `n`, most significant first.
pub open spec fn dec_digit(d: nat) -> char {
    if d == 0 {
        '0'
    } else if d == 1 {
        '1'
    } else if d == 2 {
        '2'
    } else if d == 3 {
        '3'
    } else if d == 4 {
        '4'
    } else if d == 5 {
        '5'
    } else if d == 6 {
        '6'
    } else if d == 7 {
        '7'
    } else if d == 8 {
        '8'
    } else {
        '9'
    }
}

/// `n` written in base ten, most significant digit first.
pub open spec fn dec_chars(n: nat) -> Seq<char>
    decreases n,
{
    if n < 10 {
        seq![dec_digit(n)]
    } else {
        dec_chars(n / 10).push(dec_digit(n % 10))
    }
}

/// Relies on `UBig: From<usize>`: the counter holds exactly `n`.
#[verifier::external_body]
pub fn big_from_usize(n: usize) -> (r: UBig)
    ensures
        big_nat(r) == n as nat,
{
    UBig::from(n)
}

/// Relies on `Mul<&UBig> for &UBig`: exact product, no precision loss.
#[verifier::external_body]
pub fn big_mul(a: &UBig, b: &UBig) -> (r: UBig)
    ensures
        big_nat(r) == big_nat(*a) * big_nat(*b),
{
    a * b
}

/// Relies on `Add<&UBig> for &UBig`: exact sum.
#[verifier::external_body]
pub fn big_add(a: &UBig, b: &UBig) -> (r: UBig)
    ensures
        big_nat(r) == big_nat(*a) + big_nat(*b),
{
    a + b
}

/// Relies on `Sub<&UBig> for &UBig`, which panics when the result would be
/// negative; the precondition rules that input out.
#[verifier::external_body]
pub fn big_sub(a: &UBig, b: &UBig) -> (r: UBig)
    requires
        big_nat(*b) <= big_nat(*a),
    ensures
        big_nat(r) == big_nat(*a) - big_nat(*b),
{
    a - b
}

/// Relies on `Clone for UBig`: the copy holds the same value.
#[verifier::external_body]
pub fn big_clone(a: &UBig) -> (r: UBig)
    ensures
        big_nat(r) == big_nat(*a),
{
    a.clone()
}

/// Relies on `Display for UBig`, which writes the value in base ten with
/// no sign, separators or padding.
#[verifier::external_body]
pub fn big_to_decimal(a: &UBig) -> (r: String)
    ensures
        r@ == dec_chars(big_nat(*a)),
{
    format!("{}", a)
}

} // verus!
