//! The arbitrary-precision integer domain.  `Int` owns a `num_bigint::BigInt`
//! and is modelled by the mathematical integer it holds; every ring operation
//! is carried out by `num_bigint` behind a small trusted wrapper whose
//! contract states the arithmetic fact the crate's source shows.
use vstd::prelude::*;

use crate::arith::{mag, tdiv, trem};

verus! {

#[verifier::external_type_specification]
#[verifier::external_body]
pub struct ExBigInt(num_bigint::BigInt);

/// The mathematical integer that a `num_bigint::BigInt` holds.
pub uninterp spec fn int_of(b: num_bigint::BigInt) -> int;

/// Relies on `BigInt: From<i64>`: builds the big integer with that value.
#[verifier::external_body]
fn big_from_i64(v: i64) -> (r: num_bigint::BigInt)
    ensures
        int_of(r) == v as int,
{
    num_bigint::BigInt::from(v)
}

/// Relies on `<BigInt as Clone>::clone`: an equal, independent value.
#[verifier::external_body]
fn big_clone(a: &num_bigint::BigInt) -> (r: num_bigint::BigInt)
    ensures
        int_of(r) == int_of(*a),
{
    a.clone()
}

/// Relies on `<&BigInt as Add>::add`: exact integer addition.
#[verifier::external_body]
fn big_add(a: &num_bigint::BigInt, b: &num_bigint::BigInt) -> (r: num_bigint::BigInt)
    ensures
        int_of(r) == int_of(*a) + int_of(*b),
{
    a + b
}

/// Relies on `<&BigInt as Sub>::sub`: exact integer subtraction.
#[verifier::external_body]
fn big_sub(a: &num_bigint::BigInt, b: &num_bigint::BigInt) -> (r: num_bigint::BigInt)
    ensures
        int_of(r) == int_of(*a) - int_of(*b),
{
    a - b
}

/// Relies on `<&BigInt as Mul>::mul`: exact integer multiplication.
#[verifier::external_body]
fn big_mul(a: &num_bigint::BigInt, b: &num_bigint::BigInt) -> (r: num_bigint::BigInt)
    ensures
        int_of(r) == int_of(*a) * int_of(*b),
{
    a * b
}

/// Relies on `<&BigInt as Neg>::neg`: exact negation.
#[verifier::external_body]
fn big_neg(a: &num_bigint::BigInt) -> (r: num_bigint::BigInt)
    ensures
        int_of(r) == -int_of(*a),
{
    -a
}

/// Relies on `<&BigInt as Div>::div`: truncated division (quotient rounded
/// toward zero, as `Integer::div_rem` documents); panics on a zero divisor,
/// which the precondition rules out.
#[verifier::external_body]
fn big_div(a: &num_bigint::BigInt, b: &num_bigint::BigInt) -> (r: num_bigint::BigInt)
    requires
        int_of(*b) != 0,
    ensures
        int_of(r) == tdiv(int_of(*a), int_of(*b)),
{
    a / b
}

/// Relies on `<&BigInt as Rem>::rem`: truncated remainder (sign of the
/// dividend); panics on a zero divisor, which the precondition rules out.
#[verifier::external_body]
fn big_rem(a: &num_bigint::BigInt, b: &num_bigint::BigInt) -> (r: num_bigint::BigInt)
    requires
        int_of(*b) != 0,
    ensures
        int_of(r) == trem(int_of(*a), int_of(*b)),
{
    a % b
}

/// Relies on `<BigInt as PartialEq>::eq`: equality of the held values
/// (the representation is canonical).
#[verifier::external_body]
fn big_eq(a: &num_bigint::BigInt, b: &num_bigint::BigInt) -> (r: bool)
    ensures
        r == (int_of(*a) == int_of(*b)),
{
    a == b
}

/// Relies on `BigInt::sign`: `Sign::Minus` exactly for negative values.
#[verifier::external_body]
fn big_is_negative(a: &num_bigint::BigInt) -> (r: bool)
    ensures
        r == (int_of(*a) < 0),
{
    a.sign() == num_bigint::Sign::Minus
}

/// An element of the ring of integers, of arbitrary magnitude.  The view of
/// a value is the mathematical integer it stands for.
pub struct Int {
    n: num_bigint::BigInt,
}

impl View for Int {
    type V = int;

    closed spec fn view(&self) -> int {
        int_of(self.n)
    }
}

impl Int {
    /// The additive identity.
    pub fn zero() -> (r: Self)
        ensures
            r@ == 0,
    {
        Int { n: big_from_i64(0) }
    }

    /// The multiplicative identity.
    pub fn one() -> (r: Self)
        ensures
            r@ == 1,
    {
        Int { n: big_from_i64(1) }
    }

    /// An integer with the given small value.
    pub fn from_i64(v: i64) -> (r: Self)
        ensures
            r@ == v as int,
    {
        Int { n: big_from_i64(v) }
    }

    /// An equal, independent value.
    pub fn clone_val(&self) -> (r: Self)
        ensures
            r@ == self@,
    {
        Int { n: big_clone(&self.n) }
    }

    pub fn is_zero(&self) -> (r: bool)
        ensures
            r == (self@ == 0),
    {
        big_eq(&self.n, &big_from_i64(0))
    }

    pub fn is_one(&self) -> (r: bool)
        ensures
            r == (self@ == 1),
    {
        big_eq(&self.n, &big_from_i64(1))
    }

    pub fn eq_val(&self, other: &Self) -> (r: bool)
        ensures
            r == (self@ == other@),
    {
        big_eq(&self.n, &other.n)
    }

    pub fn add_ref(&self, other: &Self) -> (r: Self)
        ensures
            r@ == self@ + other@,
    {
        Int { n: big_add(&self.n, &other.n) }
    }

    pub fn sub_ref(&self, other: &Self) -> (r: Self)
        ensures
            r@ == self@ - other@,
    {
        Int { n: big_sub(&self.n, &other.n) }
    }

    pub fn mul_ref(&self, other: &Self) -> (r: Self)
        ensures
            r@ == self@ * other@,
    {
        Int { n: big_mul(&self.n, &other.n) }
    }

    pub fn neg_val(&self) -> (r: Self)
        ensures
            r@ == -self@,
    {
        Int { n: big_neg(&self.n) }
    }

    /// Truncated division, as the underlying big integer divides.
    pub fn div_ref(&self, other: &Self) -> (r: Self)
        requires
            other@ != 0,
        ensures
            r@ == tdiv(self@, other@),
    {
        Int { n: big_div(&self.n, &other.n) }
    }

    /// Truncated remainder, as the underlying big integer divides.
    pub fn rem_ref(&self, other: &Self) -> (r: Self)
        requires
            other@ != 0,
        ensures
            r@ == trem(self@, other@),
    {
        Int { n: big_rem(&self.n, &other.n) }
    }

    /// The canonicalizing unit: the sign, as `1` or `-1`.
    pub fn sign_unit(&self) -> (r: Self)
        ensures
            r@ == if self@ >= 0 { 1int } else { -1int },
    {
        if big_is_negative(&self.n) {
            Int { n: big_from_i64(-1) }
        } else {
            Int { n: big_from_i64(1) }
        }
    }

    /// The canonical representative up to units: the absolute value.
    pub fn abs_val(&self) -> (r: Self)
        ensures
            r@ == mag(self@),
    {
        if big_is_negative(&self.n) {
            Int { n: big_neg(&self.n) }
        } else {
            Int { n: big_clone(&self.n) }
        }
    }
}

} // verus!
