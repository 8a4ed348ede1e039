//! The two-element field, the coefficient domain of the polynomial ring.
//! Addition and subtraction are both exclusive-or, every element is its own
//! negative, and the only non-zero element is its own multiplicative inverse,
//! so division is total away from zero.
use vstd::prelude::*;

verus! {

/// A field element, viewed as the boolean it stands for.
#[derive(Clone, Copy, PartialEq, Eq, Structural, Debug)]
pub struct Gf2 {
    pub b: bool,
}

impl View for Gf2 {
    type V = bool;

    open spec fn view(&self) -> bool {
        self.b
    }
}

impl Gf2 {
    /// The additive identity.
    pub fn zero() -> (r: Self)
        ensures
            r@ == false,
    {
        Gf2 { b: false }
    }

    /// The multiplicative identity.
    pub fn one() -> (r: Self)
        ensures
            r@ == true,
    {
        Gf2 { b: true }
    }

    pub fn is_zero(&self) -> (r: bool)
        ensures
            r == (self@ == false),
    {
        !self.b
    }

    pub fn is_one(&self) -> (r: bool)
        ensures
            r == (self@ == true),
    {
        self.b
    }

    /// Field addition: exclusive-or.
    pub fn add_val(&self, other: &Self) -> (r: Self)
        ensures
            r@ == (self@ != other@),
    {
        Gf2 { b: self.b != other.b }
    }

    /// Field subtraction: in characteristic two, the same as addition.
    pub fn sub_val(&self, other: &Self) -> (r: Self)
        ensures
            r@ == (self@ != other@),
    {
        Gf2 { b: self.b != other.b }
    }

    /// Field multiplication: conjunction.
    pub fn mul_val(&self, other: &Self) -> (r: Self)
        ensures
            r@ == (self@ && other@),
    {
        Gf2 { b: self.b && other.b }
    }

    /// Field division.  The only non-zero divisor is the identity, so the
    /// quotient is the dividend; dividing by zero is a precondition
    /// violation.
    pub fn div_val(&self, other: &Self) -> (r: Self)
        requires
            other@ == true,
        ensures
            r@ == self@,
    {
        Gf2 { b: self.b }
    }

    /// Negation: the identity map in characteristic two.
    pub fn neg_val(&self) -> (r: Self)
        ensures
            r@ == self@,
    {
        Gf2 { b: self.b }
    }
}

} // verus!
