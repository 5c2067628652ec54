//! Arbitrary-precision integers from the `num_bigint` crate, with the
//! mathematical value of each number as the specification-level model.
//!
//! `BigUint` is modelled by [`big_nat`], its value as a `nat`; `BigInt` by
//! [`big_int_val`], its value as an `int`. Each operation the parsers need is
//! wrapped in one small function whose contract states what the crate's
//! documentation and source promise about that value.
use vstd::prelude::*;

use num_bigint::{BigInt, BigUint};

verus! {

#[verifier::external_type_specification]
#[verifier::external_body]
pub struct ExBigUint(BigUint);

#[verifier::external_type_specification]
#[verifier::external_body]
pub struct ExBigInt(BigInt);

/// The unsigned value a `BigUint` holds.
pub uninterp spec fn big_nat(b: BigUint) -> nat;

/// The signed value a `BigInt` holds.
pub uninterp spec fn big_int_val(b: BigInt) -> int;

/// Relies on `<BigUint as Clone>::clone`: the copy holds the same value.
pub assume_specification[ <BigUint as Clone>::clone ](b: &BigUint) -> (r: BigUint)
    ensures
        big_nat(r) == big_nat(*b),
;

/// Relies on `<BigInt as Clone>::clone`: the copy holds the same value.
pub assume_specification[ <BigInt as Clone>::clone ](b: &BigInt) -> (r: BigInt)
    ensures
        big_int_val(r) == big_int_val(*b),
;

/// Relies on `<BigUint as From<usize>>::from`: the new number holds exactly
/// the given value.
#[verifier::external_body]
pub(crate) fn big_from_usize(v: usize) -> (r: BigUint)
    ensures
        big_nat(r) == v,
{
    BigUint::from(v)
}

/// Relies on `<BigUint as MulAssign<usize>>::mul_assign`: multiplies the
/// number in place by a machine word.
#[verifier::external_body]
pub(crate) fn big_mul_usize(a: &mut BigUint, m: usize)
    ensures
        big_nat(*final(a)) == big_nat(*old(a)) * m,
{
    *a *= m;
}

/// Relies on `<BigUint as AddAssign<usize>>::add_assign`: adds a machine word
/// to the number in place.
#[verifier::external_body]
pub(crate) fn big_add_usize(a: &mut BigUint, d: usize)
    ensures
        big_nat(*final(a)) == big_nat(*old(a)) + d,
{
    *a += d;
}

/// Relies on `<BigUint as MulAssign<&BigUint>>::mul_assign`: multiplies the
/// number in place by another big number.
#[verifier::external_body]
pub(crate) fn big_mul_big(a: &mut BigUint, b: &BigUint)
    ensures
        big_nat(*final(a)) == big_nat(*old(a)) * big_nat(*b),
{
    *a *= b;
}

/// Relies on `<BigUint as AddAssign<&BigUint>>::add_assign`: adds another big
/// number to the number in place.
#[verifier::external_body]
pub(crate) fn big_add_big(a: &mut BigUint, b: &BigUint)
    ensures
        big_nat(*final(a)) == big_nat(*old(a)) + big_nat(*b),
{
    *a += b;
}

/// Relies on `<isize as TryFrom<&BigUint>>::try_from` (backed by
/// `ToPrimitive::to_isize`): the conversion succeeds exactly when the value
/// fits a signed machine word, and then preserves it.
#[verifier::external_body]
pub(crate) fn big_to_isize(b: &BigUint) -> (r: Option<isize>)
    ensures
        match r {
            Some(v) => v as int == big_nat(*b),
            None => big_nat(*b) > isize::MAX,
        },
{
    isize::try_from(b).ok()
}

/// Relies on `<BigInt as From<usize>>::from`: the new number holds exactly
/// the given value.
#[verifier::external_body]
pub(crate) fn bigint_from_usize(v: usize) -> (r: BigInt)
    ensures
        big_int_val(r) == v,
{
    BigInt::from(v)
}

/// Relies on `<BigInt as From<isize>>::from`: the new number holds exactly
/// the given value.
#[verifier::external_body]
pub(crate) fn bigint_from_isize(v: isize) -> (r: BigInt)
    ensures
        big_int_val(r) == v,
{
    BigInt::from(v)
}

/// Relies on `<BigInt as Neg>::neg`: the result holds the negated value.
#[verifier::external_body]
pub(crate) fn bigint_neg(b: BigInt) -> (r: BigInt)
    ensures
        big_int_val(r) == -big_int_val(b),
{
    -b
}

/// Relies on `<BigInt as Add<BigInt>>::add`: the result holds the sum of the
/// two values.
#[verifier::external_body]
pub(crate) fn bigint_add(a: BigInt, b: BigInt) -> (r: BigInt)
    ensures
        big_int_val(r) == big_int_val(a) + big_int_val(b),
{
    a + b
}

} // verus!
