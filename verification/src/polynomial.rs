//! The polynomial ring over the two-element field: a concrete Euclidean
//! domain.  A polynomial is an ordered sequence of coefficients, index =
//! power of the formal variable, kept in canonical form: the highest entry
//! is non-zero, or the sequence is empty (the zero polynomial).
use vstd::prelude::*;

use crate::gf2::Gf2;
use vstd::string::StringExecFns;

verus! {

/// The booleans that a coefficient sequence stands for.
pub open spec fn pview(s: Seq<Gf2>) -> Seq<bool> {
    s.map_values(|c: Gf2| c@)
}

/// The coefficient of power `i`, zero outside the stored range.
pub open spec fn bit(s: Seq<bool>, i: int) -> bool {
    0 <= i < s.len() && s[i]
}

/// Canonical form: the highest stored coefficient is non-zero, or nothing
/// is stored.
pub open spec fn trimmed(s: Seq<bool>) -> bool {
    s.len() == 0 || s[s.len() - 1]
}

/// Drop trailing zero coefficients.
pub open spec fn trim(s: Seq<bool>) -> Seq<bool>
    decreases s.len(),
{
    if s.len() == 0 {
        s
    } else if s[s.len() - 1] {
        s
    } else {
        trim(s.drop_last())
    }
}

/// Trimming keeps every coefficient and reaches canonical form.
pub proof fn lemma_trim_bits(s: Seq<bool>)
    ensures
        forall|i: int| #[trigger] bit(trim(s), i) == bit(s, i),
        trimmed(trim(s)),
        trim(s).len() <= s.len(),
    decreases s.len(),
{
    if s.len() == 0 {
    } else if s[s.len() - 1] {
    } else {
        lemma_trim_bits(s.drop_last());
        assert(forall|i: int| #[trigger] bit(s.drop_last(), i) == bit(s, i));
    }
}

/// A canonical sequence is its own trim.
pub proof fn lemma_trim_id(s: Seq<bool>)
    requires
        trimmed(s),
    ensures
        trim(s) == s,
{
}

/// Sequences with the same coefficients trim to the same canonical form.
pub proof fn lemma_trim_eq(a: Seq<bool>, b: Seq<bool>)
    requires
        forall|i: int| #[trigger] bit(a, i) == bit(b, i),
    ensures
        trim(a) == trim(b),
    decreases a.len() + b.len(),
{
    if a.len() > 0 && !a[a.len() - 1] {
        assert(forall|i: int| #[trigger] bit(a.drop_last(), i) == bit(a, i));
        lemma_trim_eq(a.drop_last(), b);
    } else if b.len() > 0 && !b[b.len() - 1] {
        assert(forall|i: int| #[trigger] bit(b.drop_last(), i) == bit(b, i));
        lemma_trim_eq(a, b.drop_last());
        assert(trim(b) == trim(b.drop_last()));
    } else {
        // both canonical: they are equal
        if a.len() < b.len() {
            assert(bit(b, b.len() - 1) == bit(a, b.len() - 1));
            assert(false);
        } else if b.len() < a.len() {
            assert(bit(a, a.len() - 1) == bit(b, a.len() - 1));
            assert(false);
        } else {
            assert(a =~= b) by {
                assert(forall|i: int| 0 <= i < a.len() ==> a[i] == bit(a, i) && b[i] == bit(b, i));
            }
        }
    }
}

/// A sequence whose entries from `n` on are zero, and whose entry `n - 1`
/// (if any) is not, trims to its first `n` entries.
pub proof fn lemma_trim_take(s: Seq<bool>, n: int)
    requires
        0 <= n <= s.len(),
        forall|k: int| n <= k < s.len() ==> !(#[trigger] bit(s, k)),
        n == 0 || bit(s, n - 1),
    ensures
        trim(s) == s.take(n),
    decreases s.len(),
{
    if s.len() == n {
        assert(s.take(n) =~= s);
        lemma_trim_id(s);
    } else {
        assert(!bit(s, s.len() - 1));
        assert(forall|i: int| #[trigger] bit(s.drop_last(), i) == bit(s, i));
        lemma_trim_take(s.drop_last(), n);
        assert(s.drop_last().take(n) =~= s.take(n));
    }
}

/// Coefficient-wise sum: exclusive-or up to the longer length.
pub open spec fn radd(a: Seq<bool>, b: Seq<bool>) -> Seq<bool> {
    Seq::new(
        if a.len() >= b.len() {
            a.len()
        } else {
            b.len()
        },
        |i: int| bit(a, i) != bit(b, i),
    )
}

/// The canonical sum of two polynomials.
pub open spec fn padd(a: Seq<bool>, b: Seq<bool>) -> Seq<bool> {
    trim(radd(a, b))
}

/// The canonical difference: in characteristic two, the same as the sum.
pub open spec fn psub(a: Seq<bool>, b: Seq<bool>) -> Seq<bool> {
    padd(a, b)
}

pub proof fn lemma_radd_bits(a: Seq<bool>, b: Seq<bool>)
    ensures
        forall|i: int| #[trigger] bit(radd(a, b), i) == (bit(a, i) != bit(b, i)),
{
}

/// Partial convolution sum: the parity of `a[i] && b[k-i]` over `i < n`.
pub open spec fn conv_sum(a: Seq<bool>, b: Seq<bool>, k: int, n: int) -> bool
    decreases n,
{
    if n <= 0 {
        false
    } else {
        conv_sum(a, b, k, n - 1) != (bit(a, n - 1) && bit(b, k - (n - 1)))
    }
}

/// The coefficient of power `k` in the product.
pub open spec fn conv_at(a: Seq<bool>, b: Seq<bool>, k: int) -> bool {
    conv_sum(a, b, k, a.len() as int)
}

/// Raw convolution product, of length `a.len() + b.len() - 1` when both
/// factors are non-zero.
pub open spec fn rmul(a: Seq<bool>, b: Seq<bool>) -> Seq<bool> {
    if a.len() == 0 || b.len() == 0 {
        Seq::empty()
    } else {
        Seq::new((a.len() + b.len() - 1) as nat, |k: int| conv_at(a, b, k))
    }
}

/// The canonical product of two polynomials.
pub open spec fn pmul(a: Seq<bool>, b: Seq<bool>) -> Seq<bool> {
    trim(rmul(a, b))
}

/// A convolution sum with no non-zero term is zero.
pub proof fn lemma_conv_sum_zero(a: Seq<bool>, b: Seq<bool>, k: int, n: int)
    requires
        forall|i: int| 0 <= i < n ==> !(#[trigger] bit(a, i) && bit(b, k - i)),
    ensures
        conv_sum(a, b, k, n) == false,
    decreases n,
{
    if n > 0 {
        lemma_conv_sum_zero(a, b, k, n - 1);
    }
}

/// The product's coefficient function, defined for every power.
pub proof fn lemma_rmul_bits(a: Seq<bool>, b: Seq<bool>)
    ensures
        forall|k: int| #[trigger] bit(rmul(a, b), k) == conv_at(a, b, k),
{
    assert forall|k: int| #[trigger] bit(rmul(a, b), k) == conv_at(a, b, k) by {
        if a.len() == 0 || b.len() == 0 {
            lemma_conv_sum_zero(a, b, k, a.len() as int);
        } else if k < 0 || k >= a.len() + b.len() - 1 {
            assert(forall|i: int| 0 <= i < a.len() ==> !(#[trigger] bit(a, i) && bit(b, k - i)));
            lemma_conv_sum_zero(a, b, k, a.len() as int);
        }
    }
}

/// Changing one zero coefficient of the left factor adds one shifted,
/// scaled copy of the right factor to the convolution.
pub proof fn lemma_conv_sum_update(q: Seq<bool>, g: Seq<bool>, d: int, c: bool, k: int, n: int)
    requires
        0 <= d < q.len(),
        !q[d],
    ensures
        conv_sum(q.update(d, c), g, k, n) == if 0 <= d < n {
            conv_sum(q, g, k, n) != (c && bit(g, k - d))
        } else {
            conv_sum(q, g, k, n)
        },
    decreases n,
{
    if n > 0 {
        lemma_conv_sum_update(q, g, d, c, k, n - 1);
        if n - 1 == d {
            assert(bit(q.update(d, c), d) == c);
            assert(bit(q, d) == false);
        } else {
            assert(bit(q.update(d, c), n - 1) == bit(q, n - 1));
        }
    }
}

/// Horner evaluation of the coefficients from index `i` upward.
pub open spec fn peval_from(s: Seq<bool>, x: bool, i: int) -> bool
    decreases s.len() - i,
{
    if i < 0 || i >= s.len() {
        false
    } else {
        s[i] != (x && peval_from(s, x, i + 1))
    }
}

/// The value of the polynomial at `x`.
pub open spec fn peval(s: Seq<bool>, x: bool) -> bool {
    peval_from(s, x, 0)
}

/// The canonical single-term polynomial `c * x^d`.
pub open spec fn monomial(c: bool, d: int) -> Seq<bool> {
    if c {
        Seq::new((d + 1) as nat, |i: int| i == d)
    } else {
        Seq::empty()
    }
}

/// A polynomial over the two-element field, viewed as the sequence of its
/// coefficients (index = power), in canonical trimmed form.
pub struct Polynomial {
    coef: Vec<Gf2>,
}

impl View for Polynomial {
    type V = Seq<bool>;

    closed spec fn view(&self) -> Seq<bool> {
        pview(self.coef@)
    }
}

impl Polynomial {
    /// Canonical form: the stored sequence has no trailing zeros.
    pub open spec fn wf(&self) -> bool {
        trimmed(self@)
    }

    /// The zero polynomial: no coefficients.
    pub fn zero() -> (r: Self)
        ensures
            r@ == Seq::<bool>::empty(),
            r.wf(),
    {
        let r = Polynomial { coef: Vec::new() };
        proof {
            assert(r@ =~= Seq::<bool>::empty());
        }
        r
    }

    /// The constant polynomial one.
    pub fn one() -> (r: Self)
        ensures
            r@ =~= seq![true],
            r.wf(),
    {
        let mut coef: Vec<Gf2> = Vec::new();
        coef.push(Gf2::one());
        let r = Polynomial { coef };
        proof {
            assert(r@ =~= seq![true]);
        }
        r
    }

    /// How many coefficients are stored.
    pub fn len(&self) -> (r: usize)
        ensures
            r == self@.len(),
    {
        self.coef.len()
    }

    pub fn is_zero(&self) -> (r: bool)
        ensures
            r == (self@.len() == 0),
    {
        self.coef.len() == 0
    }

    /// The degree: `length - 1`, undefined (`None`) for the zero polynomial.
    pub fn deg(&self) -> (r: Option<usize>)
        ensures
            (r is Some) <==> self@.len() > 0,
            r matches Some(d) ==> d == self@.len() - 1,
    {
        if self.coef.len() == 0 {
            None
        } else {
            Some(self.coef.len() - 1)
        }
    }

    /// The leading coefficient, absent for the zero polynomial.
    pub fn lc(&self) -> (r: Option<Gf2>)
        ensures
            (r is Some) <==> self@.len() > 0,
            r matches Some(c) ==> c@ == self@.last(),
    {
        if self.coef.len() == 0 {
            None
        } else {
            Some(self.coef[self.coef.len() - 1])
        }
    }

    /// Drop trailing zero coefficients, re-establishing canonical form.
    fn trim_zero(&mut self)
        ensures
            final(self)@ == trim(old(self)@),
            final(self).wf(),
    {
        let ghost orig: Seq<bool> = self@;
        let mut n: usize = self.coef.len();
        while n > 0 && self.coef[n - 1].is_zero()
            invariant
                n <= self.coef@.len(),
                self@ == orig,
                forall|k: int| n <= k < orig.len() ==> !(#[trigger] bit(orig, k)),
            decreases n,
        {
            n -= 1;
        }
        self.coef.truncate(n);
        proof {
            lemma_trim_take(orig, n as int);
            assert(self@ =~= orig.take(n as int));
            lemma_trim_bits(orig);
        }
    }

    /// Build a polynomial from an explicit coefficient sequence; trailing
    /// zeros are dropped at once.
    pub fn new(coef: Vec<Gf2>) -> (r: Self)
        ensures
            r@ == trim(pview(coef@)),
            r.wf(),
    {
        let mut poly = Polynomial { coef };
        poly.trim_zero();
        poly
    }

    /// The single-term polynomial `c * x^d`.
    pub fn from_monomial(coefficent: Gf2, degree: usize) -> (r: Self)
        requires
            degree < usize::MAX,
        ensures
            r@ == monomial(coefficent@, degree as int),
            r.wf(),
    {
        let mut coef: Vec<Gf2> = Vec::new();
        let mut j: usize = 0;
        while j < degree
            invariant
                j <= degree,
                coef@.len() == j,
                forall|k: int| 0 <= k < j ==> !(#[trigger] coef@[k]@),
            decreases degree - j,
        {
            coef.push(Gf2::zero());
            j += 1;
        }
        coef.push(coefficent);
        let ghost raw: Seq<bool> = pview(coef@);
        let r = Polynomial::new(coef);
        proof {
            assert(raw.len() == degree + 1);
            assert forall|k: int| 0 <= k < raw.len() implies raw[k] == (coefficent@ && k
                == degree as int) by {
                assert(raw[k] == coef@[k]@);
            }
            if coefficent@ {
                lemma_trim_id(raw);
                assert(raw =~= monomial(true, degree as int));
            } else {
                assert(forall|k: int| 0 <= k < raw.len() ==> !(#[trigger] bit(raw, k)));
                lemma_trim_take(raw, 0);
                assert(raw.take(0) =~= Seq::<bool>::empty());
            }
        }
        r
    }

    /// An equal, independent polynomial.
    pub fn clone_val(&self) -> (r: Self)
        ensures
            r@ == self@,
    {
        let mut coef: Vec<Gf2> = Vec::new();
        let mut j: usize = 0;
        while j < self.coef.len()
            invariant
                j <= self.coef@.len(),
                coef@ == self.coef@.take(j as int),
            decreases self.coef@.len() - j,
        {
            let c = self.coef[j];
            coef.push(c);
            proof {
                assert(coef@ =~= self.coef@.take(j + 1));
            }
            j += 1;
        }
        let r = Polynomial { coef };
        proof {
            assert(self.coef@.take(self.coef@.len() as int) =~= self.coef@);
        }
        r
    }
}


impl Polynomial {
    /// In-place sum: combine index-wise after padding the shorter operand,
    /// re-trimming only when the operands had equal length (the only case
    /// where the top coefficients can cancel).
    pub fn add_assign_ref(&mut self, other: &Self)
        requires
            old(self).wf(),
            other.wf(),
        ensures
            final(self).wf(),
            final(self)@ == padd(old(self)@, other@),
    {
        let ghost fv: Seq<bool> = self@;
        let ghost gv: Seq<bool> = other@;
        let len_eq = self.coef.len() == other.coef.len();
        while self.coef.len() < other.coef.len()
            invariant
                fv.len() <= self.coef@.len(),
                self.coef@.len() <= if fv.len() >= gv.len() {
                    fv.len()
                } else {
                    gv.len()
                },
                gv == other@,
                forall|k: int| #[trigger] bit(self@, k) == bit(fv, k),
            decreases other.coef@.len() - self.coef@.len(),
        {
            let ghost before: Seq<bool> = self@;
            self.coef.push(Gf2::zero());
            proof {
                assert(self@ =~= before.push(false));
                assert(forall|k: int| #[trigger] bit(before.push(false), k) == bit(before, k));
            }
        }
        let ghost mid: Seq<bool> = self@;
        let mut j: usize = 0;
        while j < other.coef.len()
            invariant
                other.coef@.len() <= self.coef@.len(),
                self.coef@.len() == mid.len(),
                gv == other@,
                j <= gv.len(),
                forall|k: int| j <= k < mid.len() ==> #[trigger] self@[k] == mid[k],
                forall|k: int| 0 <= k < j ==> #[trigger] self@[k] == (mid[k] != gv[k]),
                forall|k: int| #[trigger] bit(mid, k) == bit(fv, k),
            decreases gv.len() - j,
        {
            let ghost prev: Seq<bool> = self@;
            let ghost prev_coef: Seq<Gf2> = self.coef@;
            let c = self.coef[j].add_val(&other.coef[j]);
            self.coef[j] = c;
            proof {
                assert(self.coef@ == prev_coef.update(j as int, c));
                assert forall|k: int| 0 <= k < self@.len() implies #[trigger] self@[k] == if k
                    == j as int {
                    c@
                } else {
                    prev[k]
                } by {
                    assert(self@[k] == self.coef@[k]@);
                    assert(prev[k] == prev_coef[k]@);
                }
                assert(gv[j as int] == other.coef@[j as int]@);
                assert forall|k: int| 0 <= k < j + 1 implies #[trigger] self@[k] == (mid[k]
                    != gv[k]) by {
                    if k == j as int {
                        assert(prev[k] == mid[k]);
                        assert(c@ == (prev[k] != gv[k]));
                    } else {
                        assert(prev[k] == (mid[k] != gv[k]));
                    }
                }
                assert forall|k: int| j + 1 <= k < mid.len() implies #[trigger] self@[k]
                    == mid[k] by {
                    assert(self@[k] == prev[k]);
                }
            }
            j += 1;
        }
        proof {
            assert(fv.len() <= mid.len() && gv.len() <= mid.len() && self@.len() == mid.len());
            assert forall|k: int| #[trigger] bit(self@, k) == (bit(fv, k) != bit(gv, k)) by {
                if 0 <= k < gv.len() {
                    assert(self@[k] == (mid[k] != gv[k]));
                    assert(bit(mid, k) == bit(fv, k));
                } else if 0 <= k < mid.len() {
                    assert(self@[k] == mid[k]);
                    assert(bit(mid, k) == bit(fv, k));
                }
            }
            lemma_radd_bits(fv, gv);
            assert(forall|k: int| #[trigger] bit(self@, k) == bit(radd(fv, gv), k));
        }
        let ghost pre: Seq<bool> = self@;
        if len_eq {
            self.trim_zero();
            proof {
                lemma_trim_eq(pre, radd(fv, gv));
            }
        }
        proof {
            if len_eq {
            } else {
                // the longer operand's top coefficient survives, so the
                // result is already canonical
                let w = radd(fv, gv);
                assert(self@.len() == w.len());
                if fv.len() > gv.len() {
                    assert(bit(fv, fv.len() - 1));
                    assert(bit(self@, w.len() - 1));
                } else {
                    assert(bit(gv, gv.len() - 1));
                    assert(bit(self@, w.len() - 1));
                }
                assert(trimmed(self@));
                lemma_trim_eq(self@, w);
                lemma_trim_id(self@);
            }
        }
    }

    /// In-place difference: in characteristic two the same combination as
    /// the sum, kept as its own operation.
    pub fn sub_assign_ref(&mut self, other: &Self)
        requires
            old(self).wf(),
            other.wf(),
        ensures
            final(self).wf(),
            final(self)@ == psub(old(self)@, other@),
    {
        self.add_assign_ref(other);
    }

    /// The additive inverse: every element of the coefficient field is its
    /// own negative, so the polynomial is returned unchanged.
    pub fn neg_val(self) -> (r: Self)
        ensures
            r@ == self@,
    {
        self
    }

    /// Borrowed-operand sum returning a fresh polynomial.
    pub fn add_ref(&self, other: &Self) -> (r: Self)
        requires
            self.wf(),
            other.wf(),
        ensures
            r.wf(),
            r@ == padd(self@, other@),
    {
        let mut t = self.clone_val();
        t.add_assign_ref(other);
        t
    }

    /// Borrowed-operand difference returning a fresh polynomial.
    pub fn sub_ref(&self, other: &Self) -> (r: Self)
        requires
            self.wf(),
            other.wf(),
        ensures
            r.wf(),
            r@ == psub(self@, other@),
    {
        let mut t = self.clone_val();
        t.sub_assign_ref(other);
        t
    }
}

/// Add `c` times `vec` into `sum`, starting at `start`: one row of the
/// convolution.
pub fn mul_aux(sum: &mut Vec<Gf2>, start: usize, c: Gf2, vec: &Vec<Gf2>)
    requires
        start + vec@.len() <= old(sum)@.len(),
    ensures
        final(sum)@.len() == old(sum)@.len(),
        forall|k: int|
            0 <= k < final(sum)@.len() ==> #[trigger] final(sum)@[k]@ == if start <= k < start
                + vec@.len() {
                old(sum)@[k]@ != (c@ && vec@[k - start]@)
            } else {
                old(sum)@[k]@
            },
{
    let ghost orig: Seq<Gf2> = sum@;
    let n = sum.len();
    let mut j: usize = 0;
    while j < vec.len()
        invariant
            start + vec@.len() <= sum@.len(),
            sum@.len() == n,
            sum@.len() == orig.len(),
            j <= vec@.len(),
            forall|k: int|
                0 <= k < sum@.len() ==> #[trigger] sum@[k]@ == if start <= k < start + j {
                    orig[k]@ != (c@ && vec@[k - start]@)
                } else {
                    orig[k]@
                },
        decreases vec@.len() - j,
    {
        let t = c.mul_val(&vec[j]);
        let s = sum[start + j].add_val(&t);
        sum[start + j] = s;
        j += 1;
    }
}

impl Polynomial {
    /// Convolution product: accumulate all cross terms, then trim.
    pub fn mul_ref(&self, other: &Self) -> (r: Self)
        requires
            self.wf(),
            other.wf(),
            self@.len() + other@.len() <= usize::MAX,
        ensures
            r.wf(),
            r@ == pmul(self@, other@),
    {
        let ghost fv: Seq<bool> = self@;
        let ghost gv: Seq<bool> = other@;
        if self.coef.len() == 0 || other.coef.len() == 0 {
            proof {
                assert(rmul(fv, gv) =~= Seq::<bool>::empty());
                lemma_trim_id(rmul(fv, gv));
            }
            return Self::zero();
        }
        let rlen = self.coef.len() + other.coef.len() - 1;
        let mut sum: Vec<Gf2> = Vec::new();
        while sum.len() < rlen
            invariant
                sum@.len() <= rlen,
                forall|k: int| 0 <= k < sum@.len() ==> !(#[trigger] sum@[k]@),
            decreases rlen - sum@.len(),
        {
            sum.push(Gf2::zero());
        }
        let mut i: usize = 0;
        proof {
            assert(forall|k: int|
                0 <= k < sum@.len() ==> #[trigger] sum@[k]@ == conv_sum(fv, gv, k, 0));
        }
        while i < self.coef.len()
            invariant
                fv == self@,
                gv == other@,
                fv.len() >= 1,
                gv.len() >= 1,
                rlen == fv.len() + gv.len() - 1,
                sum@.len() == rlen,
                i <= fv.len(),
                forall|k: int|
                    0 <= k < sum@.len() ==> #[trigger] sum@[k]@ == conv_sum(fv, gv, k, i as int),
            decreases fv.len() - i,
        {
            let ghost before: Seq<Gf2> = sum@;
            let ci = self.coef[i];
            proof {
                assert(ci@ == bit(fv, i as int));
            }
            mul_aux(&mut sum, i, ci, &other.coef);
            proof {
                assert forall|k: int|
                    0 <= k < sum@.len() implies #[trigger] sum@[k]@ == conv_sum(
                    fv,
                    gv,
                    k,
                    i + 1,
                ) by {
                    assert(conv_sum(fv, gv, k, i + 1) == (conv_sum(fv, gv, k, i as int) != (bit(
                        fv,
                        i as int,
                    ) && bit(gv, k - i))));
                    if i <= k < i + gv.len() {
                        assert(gv[k - i] == other.coef@[k - i]@);
                        assert(bit(gv, k - i) == other.coef@[k - i]@);
                    } else {
                        assert(!bit(gv, k - i));
                    }
                }
            }
            i += 1;
        }
        let ghost raw: Seq<bool> = pview(sum@);
        let r = Polynomial::new(sum);
        proof {
            assert(raw =~= rmul(fv, gv));
        }
        r
    }

    /// In-place product.
    pub fn mul_assign_ref(&mut self, other: &Self)
        requires
            old(self).wf(),
            other.wf(),
            old(self)@.len() + other@.len() <= usize::MAX,
        ensures
            final(self).wf(),
            final(self)@ == pmul(old(self)@, other@),
    {
        let t = self.mul_ref(other);
        *self = t;
    }

    /// Horner evaluation at `x`: start at the highest-degree coefficient
    /// and repeatedly multiply by `x` and add the next one down.
    pub fn eval(&self, x: &Gf2) -> (r: Gf2)
        ensures
            r@ == peval(self@, x@),
    {
        let ghost sv: Seq<bool> = self@;
        if self.coef.len() == 0 {
            return Gf2::zero();
        }
        let mut sum = self.coef[self.coef.len() - 1];
        let mut k: usize = self.coef.len() - 1;
        proof {
            assert(peval_from(sv, x@, sv.len() as int) == false);
            assert(peval_from(sv, x@, sv.len() - 1) == (sv[sv.len() - 1] != (x@ && false)));
        }
        while k > 0
            invariant
                sv == self@,
                k < sv.len(),
                sum@ == peval_from(sv, x@, k as int),
            decreases k,
        {
            k -= 1;
            let t = sum.mul_val(x);
            sum = t.add_val(&self.coef[k]);
        }
        sum
    }
}


impl Polynomial {
    /// Divide every coefficient by the leading one, making the polynomial
    /// monic; the zero polynomial is left unchanged.  Over the two-element
    /// field the leading coefficient is already the identity, so the
    /// coefficients keep their values.
    pub fn monic(&mut self)
        requires
            old(self).wf(),
        ensures
            final(self).wf(),
            final(self)@ == old(self)@,
            old(self)@.len() > 0 ==> final(self)@.last() == true,
    {
        let ghost orig: Seq<bool> = self@;
        match self.lc() {
            None => {},
            Some(lc) => {
                let mut j: usize = 0;
                while j < self.coef.len()
                    invariant
                        self@ == orig,
                        lc@ == true,
                        j <= self.coef@.len(),
                    decreases self.coef@.len() - j,
                {
                    let ghost prev_coef: Seq<Gf2> = self.coef@;
                    let c = self.coef[j].div_val(&lc);
                    self.coef[j] = c;
                    proof {
                        assert(self.coef@ =~= prev_coef);
                    }
                    j += 1;
                }
            },
        }
    }

    /// Euclidean long division by a non-zero divisor: repeatedly cancel the
    /// leading term.  On return `self` holds the remainder, of degree less
    /// than the divisor's, and the quotient is returned; quotient times
    /// divisor plus remainder is the original polynomial.
    pub fn division(&mut self, other: &Self) -> (q: Self)
        requires
            old(self).wf(),
            other.wf(),
            other@.len() > 0,
        ensures
            final(self).wf(),
            q.wf(),
            final(self)@.len() < other@.len(),
            padd(pmul(q@, other@), final(self)@) == old(self)@,
    {
        let ghost forig: Seq<bool> = self@;
        let ghost gv: Seq<bool> = other@;
        let g_len = other.coef.len();
        if self.coef.len() < g_len {
            let q = Self::zero();
            proof {
                let e = Seq::<bool>::empty();
                assert(rmul(e, gv) =~= e);
                assert(trimmed(e));
                lemma_trim_id(e);
                lemma_radd_bits(e, forig);
                assert(forall|k: int| #[trigger] bit(radd(e, forig), k) == bit(forig, k));
                lemma_trim_eq(radd(e, forig), forig);
                lemma_trim_id(forig);
            }
            return q;
        }
        let qlen = self.coef.len() - g_len + 1;
        let mut qcoef: Vec<Gf2> = Vec::new();
        while qcoef.len() < qlen
            invariant
                qcoef@.len() <= qlen,
                forall|k: int| 0 <= k < qcoef@.len() ==> !(#[trigger] qcoef@[k]@),
            decreases qlen - qcoef@.len(),
        {
            qcoef.push(Gf2::zero());
        }
        proof {
            let qv = pview(qcoef@);
            assert forall|k: int| !(#[trigger] bit(qv, k)) by {
                if 0 <= k < qv.len() {
                    assert(qv[k] == qcoef@[k]@);
                }
            }
            lemma_rmul_bits(qv, gv);
            assert forall|k: int| !(#[trigger] bit(rmul(qv, gv), k)) by {
                lemma_conv_sum_zero(qv, gv, k, qv.len() as int);
            }
            lemma_radd_bits(rmul(qv, gv), forig);
            assert(forall|k: int| #[trigger] bit(radd(rmul(qv, gv), forig), k) == bit(forig, k));
            lemma_trim_eq(radd(rmul(qv, gv), forig), forig);
            lemma_trim_id(forig);
        }
        while self.coef.len() >= g_len
            invariant
                other@ == gv,
                gv.len() == g_len,
                g_len >= 1,
                self.wf(),
                trimmed(gv),
                qcoef@.len() == qlen,
                qlen >= 1,
                self@.len() <= forig.len(),
                forig.len() == qlen + g_len - 1,
                forall|j: int|
                    0 <= j && j + g_len <= self@.len() ==> !(#[trigger] pview(qcoef@)[j]),
                self@.len() == forig.len() || bit(pview(qcoef@), qlen - 1),
                trim(radd(rmul(pview(qcoef@), gv), self@)) == forig,
            decreases self@.len(),
        {
            let ghost fcur: Seq<bool> = self@;
            let ghost qv: Seq<bool> = pview(qcoef@);
            let flen = self.coef.len();
            let d = flen - g_len;
            let lc_g = other.coef[g_len - 1];
            proof {
                assert(lc_g@ == gv[g_len - 1]);
            }
            let c = self.coef[flen - 1].div_val(&lc_g);
            proof {
                assert(c@ == fcur[flen - 1]);
                assert(c@ == true);
            }
            let mut ii: usize = 0;
            while ii < g_len - 1
                invariant
                    other@ == gv,
                    gv.len() == g_len,
                    g_len >= 1,
                    ii <= g_len - 1,
                    self.coef@.len() == flen,
                    flen == d + g_len,
                    flen <= forig.len(),
                    fcur.len() == flen,
                    c@ == true,
                    forall|k: int|
                        0 <= k < flen ==> #[trigger] self@[k] == if d <= k < d + ii {
                            fcur[k] != (c@ && gv[k - d])
                        } else {
                            fcur[k]
                        },
                decreases g_len - 1 - ii,
            {
                let ghost prevp: Seq<bool> = self@;
                let ghost prev_coef: Seq<Gf2> = self.coef@;
                let t = c.mul_val(&other.coef[ii]);
                let snew = self.coef[ii + d].sub_val(&t);
                self.coef[ii + d] = snew;
                proof {
                    assert(self.coef@ == prev_coef.update((ii + d) as int, snew));
                    assert(gv[ii as int] == other.coef@[ii as int]@);
                    assert forall|k: int| 0 <= k < flen implies #[trigger] self@[k] == if k == ii
                        + d {
                        prevp[k] != (c@ && gv[ii as int])
                    } else {
                        prevp[k]
                    } by {
                        assert(self@[k] == self.coef@[k]@);
                        assert(prevp[k] == prev_coef[k]@);
                    }
                }
                ii += 1;
            }
            let ghost fpre: Seq<bool> = self@;
            let ghost fpre_coef: Seq<Gf2> = self.coef@;
            let _popped = self.coef.pop();
            let ghost fmid: Seq<bool> = self@;
            proof {
                assert(self.coef@ == fpre_coef.subrange(0, flen - 1));
                assert(fmid.len() == flen - 1);
                assert forall|k: int| #[trigger] bit(fmid, k) == (bit(fcur, k) != (c@ && bit(
                    gv,
                    k - d,
                ))) by {
                    if 0 <= k < flen - 1 {
                        assert(fmid[k] == self.coef@[k]@);
                        assert(fpre[k] == fpre_coef[k]@);
                        assert(fmid[k] == fpre[k]);
                        if d <= k {
                            assert(gv[k - d] == bit(gv, k - d));
                        }
                    } else if k == flen - 1 {
                        assert(bit(fcur, k) == true);
                        assert(bit(gv, k - d) == gv[g_len - 1]);
                    }
                }
            }
            self.trim_zero();
            qcoef[d] = c;
            proof {
                let qv2 = pview(qcoef@);
                assert(qv2 =~= qv.update(d as int, true));
                assert(!qv[d as int]) by {
                    assert(pview(qcoef@.update(d as int, c))[d as int] == c@);
                }
                // the quotient picked up the term c * x^d
                lemma_rmul_bits(qv, gv);
                lemma_rmul_bits(qv2, gv);
                assert forall|k: int| #[trigger] bit(rmul(qv2, gv), k) == (bit(rmul(qv, gv), k)
                    != (c@ && bit(gv, k - d))) by {
                    lemma_conv_sum_update(qv, gv, d as int, true, k, qv.len() as int);
                    assert(conv_at(qv2, gv, k) == conv_sum(qv.update(d as int, true), gv, k, qv.len() as int));
                }
                // the remainder lost the same term, so the combination is kept
                lemma_trim_bits(fmid);
                lemma_radd_bits(rmul(qv2, gv), self@);
                lemma_radd_bits(rmul(qv, gv), fcur);
                assert forall|k: int| #[trigger] bit(radd(rmul(qv2, gv), self@), k) == bit(
                    radd(rmul(qv, gv), fcur),
                    k,
                ) by {
                    assert(bit(self@, k) == bit(fmid, k));
                }
                lemma_trim_eq(radd(rmul(qv2, gv), self@), radd(rmul(qv, gv), fcur));
                // bookkeeping for the quotient's untouched low entries
                assert forall|j: int| 0 <= j && j + g_len <= self@.len() implies !(
                #[trigger] pview(qcoef@)[j]) by {
                    assert(self@.len() <= fmid.len());
                    assert(j < d);
                    assert(qv2[j] == qv[j]);
                }
                assert(self@.len() < forig.len() || bit(pview(qcoef@), qlen - 1));
                if d == qlen - 1 {
                    assert(bit(qv2, qlen - 1));
                } else {
                    assert(flen < forig.len());
                    assert(bit(qv, qlen - 1));
                    assert(bit(qv2, qlen - 1));
                }
            }
        }
        let q = Polynomial { coef: qcoef };
        proof {
            let qv = pview(qcoef@);
            let fv = self@;
            assert(self@.len() < g_len);
            assert(self@.len() < forig.len());
            assert(bit(qv, qlen - 1));
            assert(trimmed(qv));
            assert(q@ == qv);
            lemma_trim_bits(rmul(qv, gv));
            lemma_radd_bits(trim(rmul(qv, gv)), fv);
            lemma_radd_bits(rmul(qv, gv), fv);
            assert(forall|k: int|
                #[trigger] bit(radd(trim(rmul(qv, gv)), fv), k) == bit(radd(rmul(qv, gv), fv), k));
            lemma_trim_eq(radd(trim(rmul(qv, gv)), fv), radd(rmul(qv, gv), fv));
        }
        q
    }
}

impl Polynomial {
    /// Structural equality of the coefficient sequences.
    pub fn eq_val(&self, other: &Self) -> (r: bool)
        ensures
            r == (self@ == other@),
    {
        if self.coef.len() != other.coef.len() {
            proof {
                assert(self@.len() != other@.len());
            }
            return false;
        }
        let mut j: usize = 0;
        while j < self.coef.len()
            invariant
                self.coef@.len() == other.coef@.len(),
                j <= self.coef@.len(),
                forall|k: int| 0 <= k < j ==> #[trigger] self@[k] == other@[k],
            decreases self.coef@.len() - j,
        {
            if !(self.coef[j] == other.coef[j]) {
                proof {
                    assert(self@[j as int] == self.coef@[j as int]@);
                    assert(other@[j as int] == other.coef@[j as int]@);
                }
                return false;
            }
            proof {
                assert(self@[j as int] == self.coef@[j as int]@);
                assert(other@[j as int] == other.coef@[j as int]@);
            }
            j += 1;
        }
        proof {
            assert(self@ =~= other@);
        }
        true
    }
}


/// Adding a polynomial and then subtracting it again gives the original
/// back: `(f + g) - g == f` for all canonical `f` and `g`.
pub proof fn lemma_add_sub_cancel(f: Seq<bool>, g: Seq<bool>)
    requires
        trimmed(f),
        trimmed(g),
    ensures
        psub(padd(f, g), g) == f,
{
    let w = radd(f, g);
    lemma_trim_bits(w);
    lemma_radd_bits(f, g);
    lemma_radd_bits(trim(w), g);
    assert forall|i: int| #[trigger] bit(radd(trim(w), g), i) == bit(f, i) by {
        assert(bit(trim(w), i) == bit(w, i));
    }
    lemma_trim_eq(radd(trim(w), g), f);
    lemma_trim_id(f);
}


/// The character of a decimal digit.
pub open spec fn digit_char(d: int) -> char {
    if d == 0 {
        '0'
    } else if d == 1 {
        '1'
    } else if d == 2 {
        '2'
    } else if d == 3 {
        '3'
    } else if d == 4 {
        '4'
    } else if d == 5 {
        '5'
    } else if d == 6 {
        '6'
    } else if d == 7 {
        '7'
    } else if d == 8 {
        '8'
    } else {
        '9'
    }
}

/// The decimal digits of a non-negative number, most significant first.
pub open spec fn dec_digits(n: int) -> Seq<char>
    recommends
        n >= 0,
    decreases n,
{
    if n < 10 {
        seq![digit_char(n)]
    } else {
        dec_digits(n / 10) + seq![digit_char(n % 10)]
    }
}

/// One displayed term of power `e`: the unit coefficient is left implicit,
/// the variable is omitted at power zero and the exponent at power one.
pub open spec fn term_chars(e: int) -> Seq<char> {
    if e == 0 {
        seq!['1']
    } else if e == 1 {
        seq!['x']
    } else {
        seq!['x', '^'] + dec_digits(e)
    }
}

/// The displayed terms of the coefficients at powers `i` and below, highest
/// first, skipping zero coefficients, joined by `+` after the first term.
pub open spec fn display_from(s: Seq<bool>, i: int, first: bool) -> Seq<char>
    decreases i + 1,
{
    if i < 0 {
        Seq::empty()
    } else if !bit(s, i) {
        display_from(s, i - 1, first)
    } else {
        (if first {
            Seq::<char>::empty()
        } else {
            seq!['+']
        }) + term_chars(i) + display_from(s, i - 1, false)
    }
}

/// The displayed form of a polynomial; the zero polynomial shows as `0`.
pub open spec fn display_chars(s: Seq<bool>) -> Seq<char> {
    if s.len() == 0 {
        seq!['0']
    } else {
        display_from(s, s.len() - 1, true)
    }
}

/// Append the decimal digits of `e` to `out`.
fn append_decimal(out: &mut String, e: usize)
    ensures
        final(out)@ == old(out)@ + dec_digits(e as int),
    decreases e,
{
    let ghost pre: Seq<char> = out@;
    if e >= 10 {
        append_decimal(out, e / 10);
    }
    let ghost mid: Seq<char> = out@;
    let d = e % 10;
    if d == 0 {
        out.append("0");
    } else if d == 1 {
        out.append("1");
    } else if d == 2 {
        out.append("2");
    } else if d == 3 {
        out.append("3");
    } else if d == 4 {
        out.append("4");
    } else if d == 5 {
        out.append("5");
    } else if d == 6 {
        out.append("6");
    } else if d == 7 {
        out.append("7");
    } else if d == 8 {
        out.append("8");
    } else {
        out.append("9");
    }
    proof {
        reveal_strlit("0");
        reveal_strlit("1");
        reveal_strlit("2");
        reveal_strlit("3");
        reveal_strlit("4");
        reveal_strlit("5");
        reveal_strlit("6");
        reveal_strlit("7");
        reveal_strlit("8");
        reveal_strlit("9");
        assert(out@ =~= mid + seq![digit_char(d as int)]);
        if e >= 10 {
            assert(out@ =~= pre + (dec_digits((e / 10) as int) + seq![digit_char(d as int)]));
            assert(dec_digits(e as int) == dec_digits(e as int / 10) + seq![digit_char(
                e as int % 10,
            )]);
            assert((e / 10) as int == e as int / 10);
            assert(d as int == e as int % 10);
        } else {
            assert(dec_digits(e as int) == seq![digit_char(e as int)]);
            assert(out@ =~= pre + dec_digits(e as int));
        }
    }
}

impl Polynomial {
    /// The displayed form: terms from highest to lowest degree, zero
    /// coefficients skipped, the unit coefficient left implicit, joined by
    /// `+`; the zero polynomial shows as `0`.
    pub fn to_display_string(&self) -> (r: String)
        ensures
            r@ == display_chars(self@),
    {
        let ghost sv: Seq<bool> = self@;
        let mut out = String::new();
        if self.coef.len() == 0 {
            out.append("0");
            proof {
                reveal_strlit("0");
                assert(out@ =~= seq!['0']);
            }
            return out;
        }
        let mut first = true;
        let mut i: usize = self.coef.len();
        proof {
            assert(out@ + display_from(sv, sv.len() - 1, true) =~= display_from(
                sv,
                sv.len() - 1,
                true,
            ));
        }
        while i > 0
            invariant
                sv == self@,
                sv.len() >= 1,
                i <= sv.len(),
                out@ + display_from(sv, i - 1, first) == display_chars(sv),
            decreases i,
        {
            i -= 1;
            let ghost f0: bool = first;
            let ghost pre: Seq<char> = out@;
            if !self.coef[i].is_zero() {
                proof {
                    assert(bit(sv, i as int) == self.coef@[i as int]@);
                }
                if first {
                    first = false;
                } else {
                    out.append("+");
                }
                if i == 0 {
                    out.append("1");
                } else if i == 1 {
                    out.append("x");
                } else {
                    out.append("x^");
                    append_decimal(&mut out, i);
                }
                proof {
                    reveal_strlit("+");
                    reveal_strlit("1");
                    reveal_strlit("x");
                    reveal_strlit("x^");
                    let sep: Seq<char> = if f0 {
                        Seq::<char>::empty()
                    } else {
                        seq!['+']
                    };
                    if i == 0 {
                        assert(out@ =~= pre + sep + term_chars(0));
                    } else if i == 1 {
                        assert(out@ =~= pre + sep + term_chars(1));
                    } else {
                        assert(("x^")@ =~= seq!['x', '^']);
                        assert(out@ =~= pre + sep + term_chars(i as int));
                    }
                    assert(display_from(sv, i as int, f0) == sep + term_chars(i as int)
                        + display_from(sv, i - 1, false));
                    assert(out@ + display_from(sv, i - 1, false) =~= pre + display_from(
                        sv,
                        i as int,
                        f0,
                    ));
                }
            } else {
                proof {
                    assert(bit(sv, i as int) == self.coef@[i as int]@);
                    assert(display_from(sv, i as int, f0) == display_from(sv, i - 1, f0));
                }
            }
        }
        proof {
            assert(display_from(sv, -1, first) =~= Seq::<char>::empty());
            assert(out@ + Seq::<char>::empty() =~= out@);
        }
        out
    }
}

} // verus!
