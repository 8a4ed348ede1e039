//! The capability hierarchy: the minimal operation sets a ring element type
//! must support to take part in each algorithm.  Each trait carries the
//! well-formedness plumbing that lets an implementation state when its
//! values are canonical and when an operation may be applied; each
//! implementation strengthens the trait's clauses with the exact arithmetic
//! facts of its own domain.
use vstd::prelude::*;

use crate::arith::{mag, tdiv, trem};
use crate::bigint::Int;
use crate::gf2::Gf2;
use crate::polynomial::{Polynomial, padd, psub, pmul, trimmed};

verus! {

/// A unitary ring element: cloneable, with both identities, negation, and
/// in-place combination with a borrowed right-hand operand.
pub trait UnitaryRing: Sized {
    /// The values the implementation keeps canonical.
    spec fn ring_wf(&self) -> bool;

    /// Whether the value is the additive identity.
    spec fn ring_is_zero(&self) -> bool;

    /// Whether a combination of the two operands stays within the
    /// implementation's limits.
    spec fn ring_can_combine(&self, other: &Self) -> bool;

    fn zero() -> (r: Self)
        ensures
            r.ring_wf(),
            r.ring_is_zero(),
    ;

    fn one() -> (r: Self)
        ensures
            r.ring_wf(),
    ;

    fn is_zero(&self) -> (r: bool)
        requires
            self.ring_wf(),
        ensures
            r == self.ring_is_zero(),
    ;

    fn clone_val(&self) -> (r: Self)
        requires
            self.ring_wf(),
        ensures
            r.ring_wf(),
    ;

    fn neg_val(self) -> (r: Self)
        requires
            self.ring_wf(),
        ensures
            r.ring_wf(),
    ;

    fn add_assign_ref(&mut self, other: &Self)
        requires
            old(self).ring_wf(),
            other.ring_wf(),
            old(self).ring_can_combine(other),
        ensures
            final(self).ring_wf(),
    ;

    fn sub_assign_ref(&mut self, other: &Self)
        requires
            old(self).ring_wf(),
            other.ring_wf(),
            old(self).ring_can_combine(other),
        ensures
            final(self).ring_wf(),
    ;

    fn mul_assign_ref(&mut self, other: &Self)
        requires
            old(self).ring_wf(),
            other.ring_wf(),
            old(self).ring_can_combine(other),
        ensures
            final(self).ring_wf(),
    ;
}

/// A Euclidean ring element: a unitary ring with in-place division and
/// remainder by a non-zero borrowed operand.
pub trait EuclideanRing: UnitaryRing {
    fn div_assign_ref(&mut self, other: &Self)
        requires
            old(self).ring_wf(),
            other.ring_wf(),
            old(self).ring_can_combine(other),
            !other.ring_is_zero(),
        ensures
            final(self).ring_wf(),
    ;

    fn rem_assign_ref(&mut self, other: &Self)
        requires
            old(self).ring_wf(),
            other.ring_wf(),
            old(self).ring_can_combine(other),
            !other.ring_is_zero(),
        ensures
            final(self).ring_wf(),
    ;
}

/// The binary ring operators as borrowed-operand functions returning a
/// freshly owned result, for algorithms that work on read-only views.
pub trait RingOperation: UnitaryRing {
    fn add_ref(&self, other: &Self) -> (r: Self)
        requires
            self.ring_wf(),
            other.ring_wf(),
            self.ring_can_combine(other),
        ensures
            r.ring_wf(),
    ;

    fn sub_ref(&self, other: &Self) -> (r: Self)
        requires
            self.ring_wf(),
            other.ring_wf(),
            self.ring_can_combine(other),
        ensures
            r.ring_wf(),
    ;

    fn mul_ref(&self, other: &Self) -> (r: Self)
        requires
            self.ring_wf(),
            other.ring_wf(),
            self.ring_can_combine(other),
        ensures
            r.ring_wf(),
    ;
}

/// Borrowed-operand division and remainder.
pub trait EuclideanRingOperation: RingOperation {
    fn div_ref(&self, other: &Self) -> (r: Self)
        requires
            self.ring_wf(),
            other.ring_wf(),
            self.ring_can_combine(other),
            !other.ring_is_zero(),
        ensures
            r.ring_wf(),
    ;

    fn rem_ref(&self, other: &Self) -> (r: Self)
        requires
            self.ring_wf(),
            other.ring_wf(),
            self.ring_can_combine(other),
            !other.ring_is_zero(),
        ensures
            r.ring_wf(),
    ;
}

/// Canonicalization up to a unit multiple: the sign for integers, the
/// leading coefficient for polynomials.
pub trait RingNormalize: UnitaryRing {
    /// The canonicalizing unit of the value.
    fn leading_unit(&self) -> (r: Self)
        requires
            self.ring_wf(),
        ensures
            r.ring_wf(),
    ;

    /// Divide the value in place by its canonicalizing unit.
    fn normalize_mut(&mut self)
        requires
            old(self).ring_wf(),
        ensures
            final(self).ring_wf(),
    ;

    /// The canonical form, consuming the value.
    fn into_normalize(self) -> (r: Self)
        requires
            self.ring_wf(),
        ensures
            r.ring_wf(),
    ;

    /// The canonical form of a borrowed value.
    fn normalize(&self) -> (r: Self)
        requires
            self.ring_wf(),
        ensures
            r.ring_wf(),
    ;

    /// Equality up to a unit multiple.
    fn is_similar(&self, other: &Self) -> (r: bool)
        requires
            self.ring_wf(),
            other.ring_wf(),
    ;
}

impl UnitaryRing for Int {
    open spec fn ring_wf(&self) -> bool {
        true
    }

    open spec fn ring_is_zero(&self) -> bool {
        self@ == 0
    }

    open spec fn ring_can_combine(&self, other: &Self) -> bool {
        true
    }

    fn zero() -> Self {
        Int::zero()
    }

    fn one() -> (r: Self)
        ensures
            r@ == 1,
    {
        Int::one()
    }

    fn is_zero(&self) -> bool {
        Int::is_zero(self)
    }

    fn clone_val(&self) -> (r: Self)
        ensures
            r@ == self@,
    {
        Int::clone_val(self)
    }

    fn neg_val(self) -> (r: Self)
        ensures
            r@ == -self@,
    {
        Int::neg_val(&self)
    }

    fn add_assign_ref(&mut self, other: &Self)
        ensures
            final(self)@ == old(self)@ + other@,
    {
        let t = Int::add_ref(self, other);
        *self = t;
    }

    fn sub_assign_ref(&mut self, other: &Self)
        ensures
            final(self)@ == old(self)@ - other@,
    {
        let t = Int::sub_ref(self, other);
        *self = t;
    }

    fn mul_assign_ref(&mut self, other: &Self)
        ensures
            final(self)@ == old(self)@ * other@,
    {
        let t = Int::mul_ref(self, other);
        *self = t;
    }
}

impl EuclideanRing for Int {
    fn div_assign_ref(&mut self, other: &Self)
        ensures
            final(self)@ == tdiv(old(self)@, other@),
    {
        let t = Int::div_ref(self, other);
        *self = t;
    }

    fn rem_assign_ref(&mut self, other: &Self)
        ensures
            final(self)@ == trem(old(self)@, other@),
    {
        let t = Int::rem_ref(self, other);
        *self = t;
    }
}

impl RingOperation for Int {
    fn add_ref(&self, other: &Self) -> (r: Self)
        ensures
            r@ == self@ + other@,
    {
        Int::add_ref(self, other)
    }

    fn sub_ref(&self, other: &Self) -> (r: Self)
        ensures
            r@ == self@ - other@,
    {
        Int::sub_ref(self, other)
    }

    fn mul_ref(&self, other: &Self) -> (r: Self)
        ensures
            r@ == self@ * other@,
    {
        Int::mul_ref(self, other)
    }
}

impl EuclideanRingOperation for Int {
    fn div_ref(&self, other: &Self) -> (r: Self)
        ensures
            r@ == tdiv(self@, other@),
    {
        Int::div_ref(self, other)
    }

    fn rem_ref(&self, other: &Self) -> (r: Self)
        ensures
            r@ == trem(self@, other@),
    {
        Int::rem_ref(self, other)
    }
}

impl RingNormalize for Int {
    /// The sign of the value, as `1` or `-1`.
    fn leading_unit(&self) -> (r: Self)
        ensures
            r@ == (if self@ >= 0 { 1int } else { -1int }),
    {
        Int::sign_unit(self)
    }

    /// Replace the value by its absolute value.
    fn normalize_mut(&mut self)
        ensures
            final(self)@ == mag(old(self)@),
    {
        let t = Int::abs_val(self);
        *self = t;
    }

    fn into_normalize(self) -> (r: Self)
        ensures
            r@ == mag(self@),
    {
        Int::abs_val(&self)
    }

    fn normalize(&self) -> (r: Self)
        ensures
            r@ == mag(self@),
    {
        Int::abs_val(self)
    }

    /// Equal up to sign.
    fn is_similar(&self, other: &Self) -> (r: bool)
        ensures
            r == (mag(self@) == mag(other@)),
    {
        let a = Int::abs_val(self);
        let b = Int::abs_val(other);
        Int::eq_val(&a, &b)
    }
}

impl UnitaryRing for Gf2 {
    open spec fn ring_wf(&self) -> bool {
        true
    }

    open spec fn ring_is_zero(&self) -> bool {
        self@ == false
    }

    open spec fn ring_can_combine(&self, other: &Self) -> bool {
        true
    }

    fn zero() -> Self {
        Gf2::zero()
    }

    fn one() -> (r: Self)
        ensures
            r@ == true,
    {
        Gf2::one()
    }

    fn is_zero(&self) -> bool {
        Gf2::is_zero(self)
    }

    fn clone_val(&self) -> (r: Self)
        ensures
            r@ == self@,
    {
        *self
    }

    /// Every element of the two-element field is its own negative.
    fn neg_val(self) -> (r: Self)
        ensures
            r@ == self@,
    {
        self
    }

    fn add_assign_ref(&mut self, other: &Self)
        ensures
            final(self)@ == (old(self)@ != other@),
    {
        let t = Gf2::add_val(self, other);
        *self = t;
    }

    fn sub_assign_ref(&mut self, other: &Self)
        ensures
            final(self)@ == (old(self)@ != other@),
    {
        let t = Gf2::sub_val(self, other);
        *self = t;
    }

    fn mul_assign_ref(&mut self, other: &Self)
        ensures
            final(self)@ == (old(self)@ && other@),
    {
        let t = Gf2::mul_val(self, other);
        *self = t;
    }
}

impl EuclideanRing for Gf2 {
    /// The only non-zero divisor is the identity, so the quotient is the
    /// dividend.
    fn div_assign_ref(&mut self, other: &Self)
        ensures
            final(self)@ == old(self)@,
    {
        let t = Gf2::div_val(self, other);
        *self = t;
    }

    /// Division in a field is exact: the remainder is zero.
    fn rem_assign_ref(&mut self, other: &Self)
        ensures
            final(self)@ == false,
    {
        *self = Gf2::zero();
    }
}

impl UnitaryRing for Polynomial {
    open spec fn ring_wf(&self) -> bool {
        self.wf()
    }


    open spec fn ring_is_zero(&self) -> bool {
        self@.len() == 0
    }

    open spec fn ring_can_combine(&self, other: &Self) -> bool {
        self@.len() + other@.len() <= usize::MAX
    }

    fn zero() -> (r: Self)
        ensures
            r@ == Seq::<bool>::empty(),
    {
        Polynomial::zero()
    }

    fn one() -> (r: Self)
        ensures
            r@ == seq![true],
    {
        let r = Polynomial::one();
        proof {
            assert(r@ =~= seq![true]);
        }
        r
    }

    fn is_zero(&self) -> bool {
        Polynomial::is_zero(self)
    }

    fn clone_val(&self) -> (r: Self)
        ensures
            r@ == self@,
    {
        Polynomial::clone_val(self)
    }

    /// Every coefficient is its own negative, so the polynomial is
    /// unchanged.
    fn neg_val(self) -> (r: Self)
        ensures
            r@ == self@,
    {
        Polynomial::neg_val(self)
    }

    fn add_assign_ref(&mut self, other: &Self)
        ensures
            final(self)@ == padd(old(self)@, other@),
    {
        Polynomial::add_assign_ref(self, other)
    }

    fn sub_assign_ref(&mut self, other: &Self)
        ensures
            final(self)@ == psub(old(self)@, other@),
    {
        Polynomial::sub_assign_ref(self, other)
    }

    fn mul_assign_ref(&mut self, other: &Self)
        ensures
            final(self)@ == pmul(old(self)@, other@),
    {
        Polynomial::mul_assign_ref(self, other)
    }
}

impl EuclideanRing for Polynomial {
    /// The quotient of the long division: some remainder of smaller degree
    /// completes it to the old value.
    fn div_assign_ref(&mut self, other: &Self)
        ensures
            exists|rm: Seq<bool>|
                trimmed(rm) && rm.len() < other@.len() && #[trigger] padd(
                    pmul(final(self)@, other@),
                    rm,
                ) == old(self)@,
    {
        let ghost fv: Seq<bool> = self@;
        let q = Polynomial::division(self, other);
        let ghost rm: Seq<bool> = self@;
        *self = q;
        proof {
            assert(trimmed(rm) && rm.len() < other@.len() && padd(pmul(self@, other@), rm)
                == fv);
        }
    }

    /// The remainder of the long division: of degree less than the
    /// divisor's, and some quotient completes it to the old value.
    fn rem_assign_ref(&mut self, other: &Self)
        ensures
            final(self)@.len() < other@.len(),
            exists|q: Seq<bool>|
                trimmed(q) && #[trigger] padd(pmul(q, other@), final(self)@) == old(self)@,
    {
        let ghost fv: Seq<bool> = self@;
        let q = Polynomial::division(self, other);
        proof {
            assert(trimmed(q@) && padd(pmul(q@, other@), self@) == fv);
        }
    }
}

impl RingOperation for Polynomial {
    fn add_ref(&self, other: &Self) -> (r: Self)
        ensures
            r@ == padd(self@, other@),
    {
        Polynomial::add_ref(self, other)
    }

    fn sub_ref(&self, other: &Self) -> (r: Self)
        ensures
            r@ == psub(self@, other@),
    {
        Polynomial::sub_ref(self, other)
    }

    fn mul_ref(&self, other: &Self) -> (r: Self)
        ensures
            r@ == pmul(self@, other@),
    {
        Polynomial::mul_ref(self, other)
    }
}

impl EuclideanRingOperation for Polynomial {
    /// The quotient of the long division: some remainder of smaller degree
    /// completes it to the dividend.
    fn div_ref(&self, other: &Self) -> (r: Self)
        ensures
            exists|rm: Seq<bool>|
                trimmed(rm) && rm.len() < other@.len() && #[trigger] padd(pmul(r@, other@), rm)
                    == self@,
    {
        let mut t = Polynomial::clone_val(self);
        let q = Polynomial::division(&mut t, other);
        proof {
            assert(trimmed(t@) && t@.len() < other@.len() && padd(pmul(q@, other@), t@)
                == self@);
        }
        q
    }

    /// The remainder of the long division: of degree less than the
    /// divisor's, and some quotient completes it to the dividend.
    fn rem_ref(&self, other: &Self) -> (r: Self)
        ensures
            r@.len() < other@.len(),
            exists|q: Seq<bool>|
                trimmed(q) && #[trigger] padd(pmul(q, other@), r@) == self@,
    {
        let mut t = Polynomial::clone_val(self);
        let q = Polynomial::division(&mut t, other);
        proof {
            assert(trimmed(q@) && padd(pmul(q@, other@), t@) == self@);
        }
        t
    }
}

impl RingNormalize for Polynomial {
    /// The constant polynomial holding the leading coefficient, or the
    /// identity for the zero polynomial; over this coefficient field both
    /// are the constant one.
    fn leading_unit(&self) -> (r: Self)
        ensures
            r@ == seq![true],
    {
        let r = match Polynomial::lc(self) {
            Some(c) => Polynomial::from_monomial(c, 0),
            None => Polynomial::one(),
        };
        proof {
            assert(r@ =~= seq![true]);
        }
        r
    }

    /// Make the polynomial monic; over this coefficient field the
    /// coefficients keep their values.
    fn normalize_mut(&mut self)
        ensures
            final(self)@ == old(self)@,
            old(self)@.len() > 0 ==> final(self)@.last() == true,
    {
        Polynomial::monic(self)
    }

    fn into_normalize(self) -> (r: Self)
        ensures
            r@ == self@,
    {
        let mut t = self;
        Polynomial::monic(&mut t);
        t
    }

    fn normalize(&self) -> (r: Self)
        ensures
            r@ == self@,
    {
        let mut t = Polynomial::clone_val(self);
        Polynomial::monic(&mut t);
        t
    }

    /// Equal up to a unit: over this coefficient field, plain equality of
    /// the canonical forms.
    fn is_similar(&self, other: &Self) -> (r: bool)
        ensures
            r == (self@ == other@),
    {
        Polynomial::eq_val(self, other)
    }
}

} // verus!
