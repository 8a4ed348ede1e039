//! Ring and Euclidean-domain algorithms — multiplication and exponentiation
//! by doubling, greatest common divisor, the extended Euclidean algorithm
//! (plain and normalized), modular inverse and division, and the Chinese
//! Remainder Theorem — over an arbitrary-precision integer domain, together
//! with a concrete polynomial ring over the two-element field.
//!
//! The element types are deliberately concrete.  A generic formulation over
//! operator-trait bounds is beyond what Verus can reason through, so the
//! scalar algorithms are stated over the arbitrary-precision integer element
//! and the polynomial ring over the two-element coefficient field; the
//! capability hierarchy in `ring_traits` records the operation sets, and
//! every element type of the crate implements it with exact contracts.
use vstd::prelude::*;

pub mod arith;
pub mod bigint;
pub mod gf2;
pub mod polynomial;
pub mod ring_traits;

pub use ring_traits::{EuclideanRingOperation, RingNormalize};

verus! {

use vstd::arithmetic::power::{pow, lemma_pow_multiplies, lemma_pow1, lemma_pow_adds, lemma_square_is_pow2};
use crate::arith::{mag, tdiv, trem, gcd_t, divides, cong, recon, prod_range, crt_coef_arg, sign_of, neea_rec, neea_spec};
use crate::arith::{lemma_trem_props, lemma_gcd_mag, lemma_trem_zero_iff_divides, lemma_gcd_zero};
use crate::arith::{
    lemma_recon_split, lemma_recon_push, lemma_prod_range_divides, lemma_crt_coef_cong,
    lemma_cong_refl, lemma_cong_sym, lemma_cong_trans, lemma_cong_add, lemma_cong_mul,
    lemma_cong_trem, coprime, lemma_coef_arg_coprime, lemma_coprime_iff_bezout,
};
use crate::bigint::Int;

/// `p` copies of `a` combined by addition, by binary doubling: the additive
/// analogue of exponentiation by squaring.
pub fn times(a: Int, p: u64) -> (r: Int)
    ensures
        r@ == a@ * p,
{
    let ghost ga: int = a@;
    let ghost gp: int = p as int;
    let mut x = Int::zero();
    let mut y = a;
    let mut p = p;
    while p > 0
        invariant
            x@ + y@ * p == ga * gp,
        decreases p,
    {
        let ghost x0: int = x@;
        let ghost y0: int = y@;
        let ghost p0: int = p as int;
        if p % 2 == 1 {
            x = x.add_ref(&y);
        }
        p = p / 2;
        if p > 0 {
            y = y.add_ref(&y);
        }
        proof {
            vstd::arithmetic::div_mod::lemma_fundamental_div_mod(p0, 2);
            if p0 % 2 == 1 {
                assert((x0 + y0) + (y0 + y0) * (p0 / 2) == x0 + y0 * p0) by (nonlinear_arith)
                    requires
                        p0 % 2 == 1,
                        p0 == 2 * (p0 / 2) + p0 % 2,
                ;
            } else {
                assert(x0 + (y0 + y0) * (p0 / 2) == x0 + y0 * p0) by (nonlinear_arith)
                    requires
                        p0 % 2 == 0,
                        p0 == 2 * (p0 / 2) + p0 % 2,
                ;
            }
            if p0 % 2 == 1 && p == 0 {
                assert(y0 * p0 == y0) by (nonlinear_arith)
                    requires
                        p0 == 1,
                ;
            }
        }
    }
    x
}

/// `a` raised to the `p`-th power, by squaring.
pub fn power(a: Int, p: u64) -> (r: Int)
    ensures
        r@ == pow(a@, p as nat),
{
    let ghost ga: int = a@;
    let ghost gp: nat = p as nat;
    let mut x = Int::one();
    let mut y = a;
    let mut p = p;
    proof {
        lemma_pow1(ga);
    }
    while p > 0
        invariant
            x@ * pow(y@, p as nat) == pow(ga, gp),
        decreases p,
    {
        let ghost x0: int = x@;
        let ghost y0: int = y@;
        let ghost p0: nat = p as nat;
        if p % 2 == 1 {
            x = x.mul_ref(&y);
        }
        p = p / 2;
        if p > 0 {
            y = y.mul_ref(&y);
        }
        proof {
            vstd::arithmetic::div_mod::lemma_fundamental_div_mod(p0 as int, 2);
            let h: nat = p0 / 2;
            assert(2 * h + p0 % 2 == p0);
            lemma_pow_multiplies(y0, 2, h);
            lemma_square_is_pow2(y0);
            assert(pow(y0 * y0, h) == pow(y0, 2 * h));
            if p0 % 2 == 1 {
                assert(pow(y0, p0) == pow(y0, 2 * h + 1));
                lemma_pow_adds(y0, 2 * h, 1);
                lemma_pow1(y0);
                assert(pow(y0, 2 * h + 1) == pow(y0, 2 * h) * y0);
                assert((x0 * y0) * pow(y0, 2 * h) == x0 * (pow(y0, 2 * h) * y0))
                    by (nonlinear_arith);
            } else {
                assert(pow(y0, p0) == pow(y0, 2 * h));
            }
        }
    }
    proof {
        vstd::arithmetic::power::lemma_pow0(y@);
        assert(x@ * pow(y@, 0) == x@ * 1);
        assert(x@ * 1 == x@);
    }
    x
}

/// Euclidean greatest common divisor: replace `(x, y)` by `(y, x mod y)`
/// until the second entry is zero.  The result can differ from the canonical
/// gcd by a sign; no normalization is applied.
pub fn gcd(x: Int, y: Int) -> (r: Int)
    ensures
        r@ == gcd_t(x@, y@),
{
    let ghost gx: int = x@;
    let ghost gy: int = y@;
    let mut x = x;
    let mut y = y;
    while !y.is_zero()
        invariant
            gcd_t(x@, y@) == gcd_t(gx, gy),
        decreases mag(y@),
    {
        proof {
            lemma_trem_props(x@, y@);
        }
        let r = x.rem_ref(&y);
        x = y;
        y = r;
    }
    x
}

/// The gcd of `x` and `y` normalizes to the multiplicative identity.
pub fn is_coprime(x: Int, y: Int) -> (r: bool)
    ensures
        r == (mag(gcd_t(x@, y@)) == 1),
{
    let g = gcd(x, y);
    let n = g.abs_val();
    n.is_one()
}

/// Extended Euclidean algorithm: besides the (unnormalized) gcd `d` of `x`
/// and `y` it returns Bezout coefficients, so that `d == r.1*x + r.2*y`.
pub fn extended_euclidian_algorithm(x: Int, y: Int) -> (r: (Int, Int, Int))
    ensures
        r.0@ == gcd_t(x@, y@),
        r.1@ * x@ + r.2@ * y@ == r.0@,
        y@ == 0 ==> r.1@ == 1 && r.2@ == 0,
{
    let ghost gx: int = x@;
    let ghost gy: int = y@;
    let mut prev0 = x;
    let mut prev1 = Int::one();
    let mut prev2 = Int::zero();
    let mut curr0 = y;
    let mut curr1 = Int::zero();
    let mut curr2 = Int::one();
    proof {
        assert(1 * gx + 0 * gy == gx) by (nonlinear_arith);
        assert(0 * gx + 1 * gy == gy) by (nonlinear_arith);
    }
    while !curr0.is_zero()
        invariant
            prev1@ * gx + prev2@ * gy == prev0@,
            curr1@ * gx + curr2@ * gy == curr0@,
            gcd_t(prev0@, curr0@) == gcd_t(gx, gy),
            gy == 0 ==> curr0@ == 0 && prev1@ == 1 && prev2@ == 0,
        decreases mag(curr0@),
    {
        let q = prev0.div_ref(&curr0);
        let t0 = q.mul_ref(&curr0);
        let new0 = prev0.sub_ref(&t0);
        let t1 = q.mul_ref(&curr1);
        let new1 = prev1.sub_ref(&t1);
        let t2 = q.mul_ref(&curr2);
        let new2 = prev2.sub_ref(&t2);
        proof {
            lemma_trem_props(prev0@, curr0@);
            assert(new0@ == trem(prev0@, curr0@)) by (nonlinear_arith)
                requires
                    new0@ == prev0@ - q@ * curr0@,
                    q@ == tdiv(prev0@, curr0@),
                    trem(prev0@, curr0@) == prev0@ - curr0@ * tdiv(prev0@, curr0@),
            ;
            assert((prev1@ - q@ * curr1@) * gx + (prev2@ - q@ * curr2@) * gy == prev0@ - q@
                * curr0@) by (nonlinear_arith)
                requires
                    prev1@ * gx + prev2@ * gy == prev0@,
                    curr1@ * gx + curr2@ * gy == curr0@,
            ;
        }
        prev0 = curr0;
        prev1 = curr1;
        prev2 = curr2;
        curr0 = new0;
        curr1 = new1;
        curr2 = new2;
    }
    (prev0, prev1, prev2)
}

/// Extended Euclidean algorithm with normalization: every remainder,
/// including the two seeds, is divided by its canonicalizing unit, so the
/// returned gcd is exactly the canonical (non-negative) one.
pub fn normalized_extended_euclidian_algorithm(x: Int, y: Int) -> (r: (Int, Int, Int))
    ensures
        r.0@ == mag(gcd_t(x@, y@)),
        r.1@ * x@ + r.2@ * y@ == r.0@,
        (r.0@, r.1@, r.2@) == neea_spec(x@, y@),
        y@ == 0 ==> r.1@ == (if x@ >= 0 { 1int } else { -1int }) && r.2@ == 0,
{
    let ghost gx: int = x@;
    let ghost gy: int = y@;
    let lc_x = x.sign_unit();
    let lc_y = y.sign_unit();
    let one = Int::one();
    let mut prev0 = x.abs_val();
    let mut prev1 = one.div_ref(&lc_x);
    let mut prev2 = Int::zero();
    let mut curr0 = y.abs_val();
    let mut curr1 = Int::zero();
    let mut curr2 = one.div_ref(&lc_y);
    proof {
        lemma_gcd_mag(gx, gy);
        assert(tdiv(1, 1) == 1 && tdiv(1, -1) == -1);
        assert(neea_spec(gx, gy) == neea_rec(mag(gx), sign_of(gx), 0, mag(gy), 0, sign_of(gy)));
        assert(prev1@ * gx + 0 * gy == mag(gx)) by (nonlinear_arith)
            requires
                prev1@ == if gx >= 0 { 1int } else { -1int },
        ;
        assert(0 * gx + curr2@ * gy == mag(gy)) by (nonlinear_arith)
            requires
                curr2@ == if gy >= 0 { 1int } else { -1int },
        ;
    }
    while !curr0.is_zero()
        invariant
            prev0@ >= 0,
            curr0@ >= 0,
            prev1@ * gx + prev2@ * gy == prev0@,
            curr1@ * gx + curr2@ * gy == curr0@,
            gcd_t(prev0@, curr0@) == mag(gcd_t(gx, gy)),
            neea_rec(prev0@, prev1@, prev2@, curr0@, curr1@, curr2@) == neea_spec(gx, gy),
            gy == 0 ==> curr0@ == 0 && prev1@ == (if gx >= 0 { 1int } else { -1int }) && prev2@
                == 0,
        decreases mag(curr0@),
    {
        let q = prev0.div_ref(&curr0);
        let r = prev0.rem_ref(&curr0);
        proof {
            lemma_trem_props(prev0@, curr0@);
        }
        let lc_r = r.sign_unit();
        let new0 = r.abs_val();
        let t1 = q.mul_ref(&curr1);
        let s1 = prev1.sub_ref(&t1);
        let new1 = s1.div_ref(&lc_r);
        let t2 = q.mul_ref(&curr2);
        let s2 = prev2.sub_ref(&t2);
        let new2 = s2.div_ref(&lc_r);
        proof {
            assert(lc_r@ == 1);
            assert(tdiv(s1@, 1) == s1@ && tdiv(s2@, 1) == s2@) by {
                vstd::arithmetic::div_mod::lemma_div_basics_2(mag(s1@));
                vstd::arithmetic::div_mod::lemma_div_basics_2(mag(s2@));
            }
            assert(new0@ == prev0@ - q@ * curr0@) by (nonlinear_arith)
                requires
                    new0@ == trem(prev0@, curr0@),
                    q@ == tdiv(prev0@, curr0@),
                    trem(prev0@, curr0@) == prev0@ - curr0@ * tdiv(prev0@, curr0@),
            ;
            assert((prev1@ - q@ * curr1@) * gx + (prev2@ - q@ * curr2@) * gy == prev0@ - q@
                * curr0@) by (nonlinear_arith)
                requires
                    prev1@ * gx + prev2@ * gy == prev0@,
                    curr1@ * gx + curr2@ * gy == curr0@,
            ;
            assert(lc_r@ == sign_of(trem(prev0@, curr0@)));
            assert(neea_rec(prev0@, prev1@, prev2@, curr0@, curr1@, curr2@) == neea_rec(
                curr0@,
                curr1@,
                curr2@,
                new0@,
                new1@,
                new2@,
            ));
        }
        prev0 = curr0;
        prev1 = curr1;
        prev2 = curr2;
        curr0 = new0;
        curr1 = new1;
        curr2 = new2;
    }
    (prev0, prev1, prev2)
}

/// The inverse of `a` modulo `m`: a value `x` with `a*x` congruent to `1`,
/// present exactly when the normalized gcd of `a` and `m` is `1`.
pub fn modulo_inverse(a: Int, m: Int) -> (r: Option<Int>)
    ensures
        (r is Some) <==> mag(gcd_t(a@, m@)) == 1,
        r matches Some(x) ==> divides(m@, a@ * x@ - 1),
        r matches Some(x) ==> x@ == neea_spec(a@, m@).1,
{
    let ghost ga: int = a@;
    let ghost gm: int = m@;
    let (g, inv_a, w) = normalized_extended_euclidian_algorithm(a, m);
    if g.is_one() {
        proof {
            assert(ga * inv_a@ - 1 == (-w@) * gm) by (nonlinear_arith)
                requires
                    inv_a@ * ga + w@ * gm == 1,
            ;
        }
        Some(inv_a)
    } else {
        None
    }
}

/// A solution `x` of `b*x` congruent to `a` modulo `m`, present exactly when
/// the normalized gcd of `b` and `m` divides `a`.
pub fn modulo_divison(a: Int, b: Int, m: Int) -> (r: Option<Int>)
    requires
        b@ != 0 || m@ != 0,
    ensures
        (r is Some) <==> divides(mag(gcd_t(b@, m@)), a@),
        r matches Some(x) ==> divides(m@, b@ * x@ - a@),
{
    let ghost ga: int = a@;
    let ghost gb: int = b@;
    let ghost gm: int = m@;
    let (g, inv_b, w) = normalized_extended_euclidian_algorithm(b, m);
    proof {
        lemma_gcd_zero(gb, gm);
        lemma_trem_zero_iff_divides(g@, ga);
    }
    let rem = a.rem_ref(&g);
    if rem.is_zero() {
        let quo = a.div_ref(&g);
        let x = quo.mul_ref(&inv_b);
        proof {
            lemma_trem_props(ga, g@);
            assert(ga == g@ * quo@) by (nonlinear_arith)
                requires
                    ga == g@ * quo@ + trem(ga, g@),
                    trem(ga, g@) == 0,
                    quo@ == tdiv(ga, g@),
            ;
            assert(gb * x@ - ga == (-(quo@ * w@)) * gm) by (nonlinear_arith)
                requires
                    x@ == quo@ * inv_b@,
                    inv_b@ * gb + w@ * gm == g@,
                    ga == g@ * quo@,
            ;
        }
        Some(x)
    } else {
        None
    }
}


/// The views of a sequence of ring integers.
pub open spec fn int_seq(s: Seq<Int>) -> Seq<int> {
    s.map_values(|x: Int| x@)
}

/// Every step of the incremental combination can take the inverse it needs:
/// this is what decides whether a combined solution is returned.
pub open spec fn crt_solvable(ms: Seq<int>) -> bool {
    forall|i: int|
        0 <= i < ms.len() ==> mag(gcd_t(#[trigger] crt_coef_arg(ms, i, i), ms[i])) == 1
}


/// The fold the construction takes at step `i` over the entries from `j`
/// upward: the value they reconstruct to, reduced modulo `ms[i]` after
/// every term.
pub open spec fn crt_fold(vs: Seq<int>, ms: Seq<int>, i: int, j: int) -> int
    decreases i - j,
{
    if j >= i {
        0
    } else {
        trem(ms[j] * crt_fold(vs, ms, i, j + 1) + vs[j], ms[i])
    }
}

/// The first `i` partial-solution entries of the incremental construction:
/// entry `k` is `(u[k] - t) * coef` reduced modulo `m[k]`, with `t` the fold
/// of the earlier entries and `coef` the inverse the algorithm takes.
pub open spec fn crt_entries(us: Seq<int>, ms: Seq<int>, i: int) -> Seq<int>
    decreases i,
{
    if i <= 0 {
        Seq::empty()
    } else {
        let vs = crt_entries(us, ms, i - 1);
        let coef = neea_spec(crt_coef_arg(ms, i - 1, i - 1), ms[i - 1]).1;
        let t = crt_fold(vs, ms, i - 1, 0);
        vs.push(trem((us[i - 1] - t) * coef, ms[i - 1]))
    }
}

/// The value the incremental construction combines to: the mixed-radix
/// reconstruction of all partial-solution entries.
pub open spec fn crt_value(us: Seq<int>, ms: Seq<int>) -> int {
    recon(crt_entries(us, ms, ms.len() as int), ms, 0, ms.len() as int)
}

/// Chinese Remainder Theorem by incremental (Garner) construction: a value
/// congruent to `u[i]` modulo `m[i]` for every `i`.  Sequences of unequal
/// length, or a step whose modular inverse does not exist, yield `None`.
/// The result is not reduced modulo the product of the moduli.
pub fn chinese_remainder_theorem(u: &Vec<Int>, m: &Vec<Int>) -> (r: Option<Int>)
    requires
        u@.len() == m@.len() ==> u@.len() >= 1 && (forall|i: int|
            0 <= i < m@.len() ==> int_seq(m@)[i] != 0),
    ensures
        u@.len() != m@.len() ==> r is None,
        (r is Some) <==> (u@.len() == m@.len() && crt_solvable(int_seq(m@))),
        r matches Some(a) ==> forall|i: int|
            0 <= i < u@.len() ==> cong(int_seq(m@)[i], a@, #[trigger] int_seq(u@)[i]),
        r matches Some(a) ==> a@ == crt_value(int_seq(u@), int_seq(m@)),
{
    let n = u.len();
    if n != m.len() {
        return None;
    }
    let ghost us: Seq<int> = int_seq(u@);
    let ghost ms: Seq<int> = int_seq(m@);
    let mut v: Vec<Int> = Vec::new();
    proof {
        assert(int_seq(v@) =~= crt_entries(us, ms, 0));
    }
    let mut i: usize = 0;
    while i < n
        invariant
            u@.len() == n,
            m@.len() == n,
            n >= 1,
            us == int_seq(u@),
            ms == int_seq(m@),
            forall|t: int| 0 <= t < n ==> ms[t] != 0,
            i <= n,
            v@.len() == i,
            forall|j: int|
                0 <= j < i ==> cong(ms[j], recon(int_seq(v@), ms, 0, j + 1), us[j]),
            forall|j: int| 0 <= j < i ==> mag(gcd_t(#[trigger] crt_coef_arg(ms, j, j), ms[j])) == 1,
            int_seq(v@) == crt_entries(us, ms, i as int),
        decreases n - i,
    {
        let ghost gi: int = i as int;
        // the argument whose inverse step i needs: the product of the
        // earlier moduli, reduced modulo m[i] after every factor
        let mut p = Int::one();
        let mut j: usize = 0;
        while j < i
            invariant
                m@.len() == n,
                ms == int_seq(m@),
                forall|t: int| 0 <= t < n ==> ms[t] != 0,
                j <= i,
                i < n,
                gi == i as int,
                p@ == crt_coef_arg(ms, gi, j as int),
            decreases i - j,
        {
            proof {
                assert(int_seq(m@)[i as int] == m@[i as int]@);
            }
            let t0 = p.mul_ref(&m[j]);
            p = t0.rem_ref(&m[i]);
            j += 1;
        }
        let ghost pmv: int = p@;
        let mi = m[i].clone_val();
        let coef = match modulo_inverse(p, mi) {
            Some(c) => c,
            None => {
                proof {
                    assert(!crt_solvable(ms));
                }
                return None;
            },
        };
        // fold the accepted entries into the value they reconstruct to,
        // modulo m[i]
        let ghost vsi: Seq<int> = int_seq(v@);
        let mut t = Int::zero();
        let mut k: usize = i;
        proof {
            lemma_cong_refl(ms[gi], 0);
        }
        while k > 0
            invariant
                m@.len() == n,
                v@.len() == i,
                ms == int_seq(m@),
                vsi == int_seq(v@),
                forall|q: int| 0 <= q < n ==> ms[q] != 0,
                k <= i,
                i < n,
                gi == i as int,
                cong(ms[gi], t@, recon(vsi, ms, k as int, gi)),
                t@ == crt_fold(vsi, ms, gi, k as int),
            decreases k,
        {
            let ghost t0: int = t@;
            let ghost k0: int = (k - 1) as int;
            k -= 1;
            let t1 = m[k].mul_ref(&t);
            let t2 = t1.add_ref(&v[k]);
            t = t2.rem_ref(&m[i]);
            proof {
                lemma_cong_refl(ms[gi], ms[k0]);
                lemma_cong_mul(ms[gi], ms[k0], ms[k0], t0, recon(vsi, ms, k0 + 1, gi));
                lemma_cong_refl(ms[gi], vsi[k0]);
                lemma_cong_add(
                    ms[gi],
                    ms[k0] * t0,
                    ms[k0] * recon(vsi, ms, k0 + 1, gi),
                    vsi[k0],
                    vsi[k0],
                );
                lemma_cong_trem(ms[gi], ms[k0] * t0 + vsi[k0]);
                assert(recon(vsi, ms, k0, gi) == vsi[k0] + ms[k0] * recon(vsi, ms, k0 + 1, gi));
                lemma_cong_trans(
                    ms[gi],
                    t@,
                    ms[k0] * t0 + vsi[k0],
                    recon(vsi, ms, k0, gi),
                );
            }
        }
        // the new partial solution
        let d = u[i].sub_ref(&t);
        let e = d.mul_ref(&coef);
        let vi = e.rem_ref(&m[i]);
        proof {
            let miv = ms[gi];
            let a = recon(vsi, ms, 0, gi);
            let pr = prod_range(ms, 0, gi);
            let dv = us[gi] - t@;
            let vs2 = vsi.push(vi@);
            assert(int_seq(v@.push(vi)) =~= vs2);
            // the pushed entry reconstructs the prefix value to u[i] mod m[i]
            lemma_recon_push(vsi, ms, vi@, 0, gi);
            lemma_recon_split(vs2, ms, 0, gi, gi + 1);
            assert(vsi.len() == gi);
            assert(vs2[gi] == vi@);
            assert(recon(vs2, ms, gi + 1, gi + 1) == 0);
            assert(recon(vs2, ms, gi, gi + 1) == vi@ + miv * 0);
            assert(miv * 0 == 0) by (nonlinear_arith);
            assert(recon(vs2, ms, 0, gi + 1) == a + pr * vi@);
            // vi ~ (u[i] - t) * coef
            lemma_cong_trem(miv, dv * coef@);
            // pr * vi ~ pr * (dv * coef)
            lemma_cong_refl(miv, pr);
            lemma_cong_mul(miv, pr, pr, vi@, dv * coef@);
            // pr ~ pmv, so pr * (dv * coef) ~ pmv * (dv * coef)
            lemma_crt_coef_cong(ms, gi, gi);
            lemma_cong_sym(miv, pmv, pr);
            lemma_cong_refl(miv, dv * coef@);
            lemma_cong_mul(miv, pr, pmv, dv * coef@, dv * coef@);
            lemma_cong_trans(miv, pr * vi@, pr * (dv * coef@), pmv * (dv * coef@));
            // pmv * (dv * coef) == dv * (pmv * coef) ~ dv * 1 == dv
            assert(pmv * (dv * coef@) == dv * (pmv * coef@)) by (nonlinear_arith);
            lemma_cong_refl(miv, dv);
            lemma_cong_mul(miv, dv, dv, pmv * coef@, 1);
            assert(dv * 1 == dv) by (nonlinear_arith);
            lemma_cong_trans(miv, pr * vi@, pmv * (dv * coef@), dv);
            // a ~ t, so a + pr*vi ~ t + dv == u[i]
            lemma_cong_sym(miv, t@, a);
            lemma_cong_add(miv, a, t@, pr * vi@, dv);
            assert(t@ + dv == us[gi]);
            assert(cong(miv, recon(vs2, ms, 0, gi + 1), us[gi]));
            // entries before i reconstruct as before
            assert forall|j: int| 0 <= j < gi implies cong(
                ms[j],
                recon(vs2, ms, 0, j + 1),
                us[j],
            ) by {
                lemma_recon_push(vsi, ms, vi@, 0, j + 1);
            }
            // the pushed entry is the one the construction defines
            assert(coef@ == neea_spec(crt_coef_arg(ms, gi, gi), ms[gi]).1);
            assert(t@ == crt_fold(vsi, ms, gi, 0));
            assert(vi@ == trem((us[gi] - t@) * coef@, ms[gi]));
            assert(crt_entries(us, ms, gi + 1) == vsi.push(trem(
                (us[gi] - crt_fold(vsi, ms, gi, 0)) * coef@,
                ms[gi],
            )));
            assert(vs2 == crt_entries(us, ms, gi + 1));
        }
        v.push(vi);
        i += 1;
    }
    // reconstruct the combined value, highest entry first
    let ghost vs: Seq<int> = int_seq(v@);
    let mut ret = match v.pop() {
        Some(x) => x,
        None => {
            proof {
                assert(false);
            }
            return None;
        },
    };
    let mut k: usize = n - 1;
    proof {
        assert(recon(vs, ms, n - 1, n as int) == vs[n - 1] + ms[n - 1] * recon(vs, ms, n as int, n as int));
        assert(ms[n - 1] * 0 == 0) by (nonlinear_arith);
    }
    while k > 0
        invariant
            v@.len() == n - 1,
            m@.len() == n,
            n >= 1,
            ms == int_seq(m@),
            vs.len() == n,
            forall|j: int| 0 <= j < n - 1 ==> #[trigger] vs[j] == int_seq(v@)[j],
            k <= n - 1,
            ret@ == recon(vs, ms, k as int, n as int),
        decreases k,
    {
        let ghost r0: int = ret@;
        let ghost k0: int = (k - 1) as int;
        k -= 1;
        let t1 = ret.mul_ref(&m[k]);
        ret = t1.add_ref(&v[k]);
        proof {
            assert(r0 * ms[k0] == ms[k0] * r0) by (nonlinear_arith);
            assert(recon(vs, ms, k0, n as int) == vs[k0] + ms[k0] * recon(vs, ms, k0 + 1, n as int));
        }
    }
    proof {
        assert forall|j: int| 0 <= j < n implies cong(ms[j], ret@, #[trigger] us[j]) by {
            lemma_recon_split(vs, ms, 0, j + 1, n as int);
            lemma_prod_range_divides(ms, 0, j, j + 1);
            let c = choose|c: int| prod_range(ms, 0, j + 1) == #[trigger] (c * ms[j]);
            assert(recon(vs, ms, 0, n as int) - recon(vs, ms, 0, j + 1) == (c * recon(
                vs,
                ms,
                j + 1,
                n as int,
            )) * ms[j]) by (nonlinear_arith)
                requires
                    recon(vs, ms, 0, n as int) == recon(vs, ms, 0, j + 1) + prod_range(ms, 0, j + 1)
                        * recon(vs, ms, j + 1, n as int),
                    prod_range(ms, 0, j + 1) == c * ms[j],
            ;
            assert(cong(ms[j], recon(vs, ms, 0, n as int), recon(vs, ms, 0, j + 1)));
            lemma_cong_trans(ms[j], ret@, recon(vs, ms, 0, j + 1), us[j]);
        }
        assert(ret@ == crt_value(us, ms));
    }
    Some(ret)
}


/// With non-zero, pairwise coprime moduli every step of the incremental
/// combination can take the inverse it needs, so `chinese_remainder_theorem`
/// returns a value.
pub proof fn lemma_pairwise_coprime_combines(ms: Seq<int>)
    requires
        forall|i: int| 0 <= i < ms.len() ==> #[trigger] ms[i] != 0,
        forall|j: int, i: int| 0 <= j < i < ms.len() ==> coprime(#[trigger] ms[j], #[trigger] ms[i]),
    ensures
        crt_solvable(ms),
{
    assert forall|i: int|
        0 <= i < ms.len() implies mag(gcd_t(#[trigger] crt_coef_arg(ms, i, i), ms[i])) == 1 by {
        lemma_coef_arg_coprime(ms, i, i);
        lemma_coprime_iff_bezout(crt_coef_arg(ms, i, i), ms[i]);
    }
}


/// `p`-fold repeated addition of `a`.
pub open spec fn repeated_add(a: int, p: nat) -> int
    decreases p,
{
    if p == 0 {
        0
    } else {
        repeated_add(a, (p - 1) as nat) + a
    }
}

/// `p`-fold repeated multiplication of `a`.
pub open spec fn repeated_mul(a: int, p: nat) -> int
    decreases p,
{
    if p == 0 {
        1
    } else {
        repeated_mul(a, (p - 1) as nat) * a
    }
}

/// What `times` returns is `a` accumulated `p` times by repeated addition:
/// the product `a * p`.
pub proof fn lemma_times_is_repeated_addition(a: int, p: nat)
    ensures
        repeated_add(a, p) == a * p,
    decreases p,
{
    if p > 0 {
        lemma_times_is_repeated_addition(a, (p - 1) as nat);
        let q: int = ((p - 1) as nat) as int;
        assert(a * q + a == a * (q + 1)) by (nonlinear_arith);
        assert(a * (q + 1) == a * p);
    } else {
        assert(a * 0 == 0) by (nonlinear_arith);
    }
}

/// What `power` returns is `a` accumulated `p` times by repeated
/// multiplication: the power `pow(a, p)`.
pub proof fn lemma_power_is_repeated_multiplication(a: int, p: nat)
    ensures
        repeated_mul(a, p) == pow(a, p),
    decreases p,
{
    if p == 0 {
        vstd::arithmetic::power::lemma_pow0(a);
    } else {
        lemma_power_is_repeated_multiplication(a, (p - 1) as nat);
        lemma_pow_adds(a, (p - 1) as nat, 1);
        lemma_pow1(a);
    }
}


} // verus!
