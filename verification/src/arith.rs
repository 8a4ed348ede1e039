//! Mathematical model of a Euclidean integer domain: truncated division and
//! remainder (quotient rounded toward zero, as arbitrary-precision integers
//! divide), the Euclidean greatest common divisor built on them, and
//! divisibility together with the congruence facts the algorithms need.
use vstd::prelude::*;

verus! {

use vstd::arithmetic::div_mod::{lemma_fundamental_div_mod, lemma_mod_bound,
    lemma_mod_multiples_basic};
/// Absolute value, as a mathematical integer.
pub open spec fn mag(a: int) -> int {
    if a >= 0 {
        a
    } else {
        -a
    }
}

/// Quotient of truncated division: rounds toward zero, as `%`/`/` on
/// machine integers and arbitrary-precision integers do.
pub open spec fn tdiv(a: int, b: int) -> int
    recommends
        b != 0,
{
    if (a >= 0) == (b >= 0) {
        mag(a) / mag(b)
    } else {
        -(mag(a) / mag(b))
    }
}

/// Remainder of truncated division; carries the sign of the dividend.
pub open spec fn trem(a: int, b: int) -> int
    recommends
        b != 0,
{
    a - b * tdiv(a, b)
}

/// The defining facts of truncated division.
pub proof fn lemma_trem_props(a: int, b: int)
    requires
        b != 0,
    ensures
        a == b * tdiv(a, b) + trem(a, b),
        mag(trem(a, b)) < mag(b),
        a >= 0 ==> trem(a, b) >= 0,
        a <= 0 ==> trem(a, b) <= 0,
        mag(trem(a, b)) == mag(a) % mag(b),
{
    let q0 = mag(a) / mag(b);
    let r0 = mag(a) % mag(b);
    lemma_fundamental_div_mod(mag(a), mag(b));
    lemma_mod_bound(mag(a), mag(b));
    assert(mag(a) == mag(b) * q0 + r0);
    assert(0 <= r0 < mag(b));
    if a >= 0 && b >= 0 {
        assert(trem(a, b) == a - b * q0 == r0);
    } else if a >= 0 && b < 0 {
        assert(tdiv(a, b) == -q0);
        assert(b * -q0 == -b * q0) by (nonlinear_arith);
        assert(trem(a, b) == a - -b * q0 == r0);
    } else if a < 0 && b >= 0 {
        assert(tdiv(a, b) == -q0);
        assert(b * -q0 == -(b * q0)) by (nonlinear_arith);
        assert(trem(a, b) == a + b * q0 == -r0);
    } else {
        assert(tdiv(a, b) == q0);
        assert(b * q0 == -(-b * q0)) by (nonlinear_arith);
        assert(trem(a, b) == a + -b * q0 == -r0);
    }
}

/// Greatest common divisor by the Euclidean algorithm on truncated
/// remainders.  No normalization: the result can differ from the canonical
/// (non-negative) gcd by a sign.
pub open spec fn gcd_t(a: int, b: int) -> int
    decreases mag(b),
        via gcd_t_dec
{
    if b == 0 {
        a
    } else {
        gcd_t(b, trem(a, b))
    }
}

#[via_fn]
proof fn gcd_t_dec(a: int, b: int) {
    if b != 0 {
        lemma_trem_props(a, b);
    }
}

/// `d` divides `x`.
pub open spec fn divides(d: int, x: int) -> bool {
    exists|k: int| x == #[trigger] (k * d)
}

/// `a` and `b` are congruent modulo `m`.
pub open spec fn cong(m: int, a: int, b: int) -> bool {
    divides(m, a - b)
}

pub proof fn lemma_cong_refl(m: int, a: int)
    ensures
        cong(m, a, a),
{
    assert(a - a == 0 * m) by (nonlinear_arith);
}

pub proof fn lemma_cong_sym(m: int, a: int, b: int)
    requires
        cong(m, a, b),
    ensures
        cong(m, b, a),
{
    let k = choose|k: int| a - b == #[trigger] (k * m);
    assert(b - a == (-k) * m) by (nonlinear_arith)
        requires
            a - b == k * m,
    ;
}

pub proof fn lemma_cong_trans(m: int, a: int, b: int, c: int)
    requires
        cong(m, a, b),
        cong(m, b, c),
    ensures
        cong(m, a, c),
{
    let k1 = choose|k: int| a - b == #[trigger] (k * m);
    let k2 = choose|k: int| b - c == #[trigger] (k * m);
    assert(a - c == (k1 + k2) * m) by (nonlinear_arith)
        requires
            a - b == k1 * m,
            b - c == k2 * m,
    ;
}

pub proof fn lemma_cong_add(m: int, a: int, b: int, c: int, d: int)
    requires
        cong(m, a, b),
        cong(m, c, d),
    ensures
        cong(m, a + c, b + d),
{
    let k1 = choose|k: int| a - b == #[trigger] (k * m);
    let k2 = choose|k: int| c - d == #[trigger] (k * m);
    assert((a + c) - (b + d) == (k1 + k2) * m) by (nonlinear_arith)
        requires
            a - b == k1 * m,
            c - d == k2 * m,
    ;
}

pub proof fn lemma_cong_mul(m: int, a: int, b: int, c: int, d: int)
    requires
        cong(m, a, b),
        cong(m, c, d),
    ensures
        cong(m, a * c, b * d),
{
    let k1 = choose|k: int| a - b == #[trigger] (k * m);
    let k2 = choose|k: int| c - d == #[trigger] (k * m);
    assert(a * c - b * d == (k1 * c + b * k2) * m) by (nonlinear_arith)
        requires
            a - b == k1 * m,
            c - d == k2 * m,
    ;
}

/// Taking the truncated remainder by `m` keeps the congruence class.
pub proof fn lemma_cong_trem(m: int, a: int)
    requires
        m != 0,
    ensures
        cong(m, trem(a, m), a),
{
    assert(trem(a, m) - a == (-tdiv(a, m)) * m) by (nonlinear_arith)
        requires
            trem(a, m) == a - m * tdiv(a, m),
    ;
}

/// The remainder is zero exactly on the multiples of the divisor.
pub proof fn lemma_trem_zero_iff_divides(d: int, x: int)
    requires
        d != 0,
    ensures
        trem(x, d) == 0 <==> divides(d, x),
{
    lemma_trem_props(x, d);
    if trem(x, d) == 0 {
        assert(x == tdiv(x, d) * d) by (nonlinear_arith)
            requires
                x == d * tdiv(x, d) + trem(x, d),
                trem(x, d) == 0,
        ;
    }
    if divides(d, x) {
        let k = choose|k: int| x == #[trigger] (k * d);
        assert(mag(x) == mag(k) * mag(d)) by (nonlinear_arith)
            requires
                x == k * d,
        ;
        lemma_mod_multiples_basic(mag(k), mag(d));
        assert(mag(trem(x, d)) == 0);
    }
}

/// The gcd is zero only when both arguments are.
pub proof fn lemma_gcd_zero(a: int, b: int)
    ensures
        gcd_t(a, b) == 0 <==> (a == 0 && b == 0),
    decreases mag(b),
{
    if b != 0 {
        lemma_trem_props(a, b);
        lemma_gcd_zero(b, trem(a, b));
    }
}

/// Both arguments can be replaced by their absolute values; only the sign
/// of the gcd can change.
pub proof fn lemma_gcd_mag(a: int, b: int)
    ensures
        mag(gcd_t(a, b)) == gcd_t(mag(a), mag(b)),
    decreases mag(b),
{
    if b == 0 {
        assert(gcd_t(mag(a), 0) == mag(a));
    } else {
        lemma_trem_props(a, b);
        lemma_trem_props(mag(a), mag(b));
        assert(tdiv(mag(a), mag(b)) == mag(a) / mag(b));
        assert(trem(mag(a), mag(b)) == mag(a) % mag(b));
        assert(trem(mag(a), mag(b)) == mag(trem(a, b)));
        lemma_gcd_mag(b, trem(a, b));
        assert(gcd_t(mag(a), mag(b)) == gcd_t(mag(b), mag(trem(a, b))));
    }
}

/// On non-negative arguments the gcd does not depend on the order.
pub proof fn lemma_gcd_sym(a: int, b: int)
    requires
        a >= 0,
        b >= 0,
    ensures
        gcd_t(a, b) == gcd_t(b, a),
{
    if a == 0 && b == 0 {
    } else if b == 0 {
        lemma_trem_props(0, a);
        vstd::arithmetic::div_mod::lemma_small_mod(0, a as nat);
        assert(trem(0, a) == 0);
        assert(gcd_t(b, a) == gcd_t(a, trem(0, a)) == gcd_t(a, 0) == a);
    } else if a == 0 {
        lemma_trem_props(0, b);
        vstd::arithmetic::div_mod::lemma_small_mod(0, b as nat);
        assert(trem(0, b) == 0);
        assert(gcd_t(a, b) == gcd_t(b, trem(0, b)) == gcd_t(b, 0) == b);
    } else if a == b {
        lemma_trem_props(a, b);
        vstd::arithmetic::div_mod::lemma_mod_self_0(a);
        assert(mag(trem(a, b)) == a % a == 0);
        assert(gcd_t(a, b) == gcd_t(b, 0) == b);
        lemma_trem_props(b, a);
        assert(mag(trem(b, a)) == 0);
        assert(gcd_t(b, a) == gcd_t(a, 0) == a);
    } else if a < b {
        lemma_trem_props(a, b);
        vstd::arithmetic::div_mod::lemma_small_mod(a as nat, b as nat);
        assert(mag(trem(a, b)) == a % b == a);
        assert(trem(a, b) == a);
        assert(gcd_t(a, b) == gcd_t(b, a));
    } else {
        lemma_trem_props(b, a);
        vstd::arithmetic::div_mod::lemma_small_mod(b as nat, a as nat);
        assert(mag(trem(b, a)) == b % a == b);
        assert(trem(b, a) == b);
        assert(gcd_t(b, a) == gcd_t(a, b));
    }
}


/// The sign of a value as a unit, `1` or `-1`; zero maps to `1`.
pub open spec fn sign_of(a: int) -> int {
    if a >= 0 {
        1
    } else {
        -1
    }
}

/// One run of the normalized extended Euclidean recurrence from the pair of
/// triples `(p0, p1, p2)` and `(c0, c1, c2)`: each new remainder and its
/// coefficients are divided by the remainder's canonicalizing unit.
pub open spec fn neea_rec(p0: int, p1: int, p2: int, c0: int, c1: int, c2: int) -> (int, int, int)
    decreases mag(c0),
        via neea_rec_dec
{
    if c0 == 0 {
        (p0, p1, p2)
    } else {
        let q = tdiv(p0, c0);
        let u = sign_of(trem(p0, c0));
        neea_rec(c0, c1, c2, mag(trem(p0, c0)), tdiv(p1 - q * c1, u), tdiv(p2 - q * c2, u))
    }
}

#[via_fn]
proof fn neea_rec_dec(p0: int, p1: int, p2: int, c0: int, c1: int, c2: int) {
    if c0 != 0 {
        lemma_trem_props(p0, c0);
    }
}

/// The triple the normalized extended Euclidean algorithm returns: the
/// recurrence started from the pre-normalized seeds.
pub open spec fn neea_spec(x: int, y: int) -> (int, int, int) {
    neea_rec(mag(x), sign_of(x), 0, mag(y), 0, sign_of(y))
}

/// Mixed-radix reconstruction of the segment `vs[j..k]` against the moduli
/// `ms[j..k]`: the value `vs[j] + ms[j]*(vs[j+1] + ms[j+1]*(...))`.
pub open spec fn recon(vs: Seq<int>, ms: Seq<int>, j: int, k: int) -> int
    recommends
        0 <= j,
        k <= vs.len(),
        vs.len() <= ms.len(),
    decreases k - j,
{
    if j >= k {
        0
    } else {
        vs[j] + ms[j] * recon(vs, ms, j + 1, k)
    }
}

/// Product of the moduli segment `ms[j..k]`.
pub open spec fn prod_range(ms: Seq<int>, j: int, k: int) -> int
    recommends
        0 <= j,
        k <= ms.len(),
    decreases k - j,
{
    if j >= k {
        1
    } else {
        ms[j] * prod_range(ms, j + 1, k)
    }
}

/// A reconstruction splits at any point of the segment into the prefix
/// plus the prefix's modulus product times the rest.
pub proof fn lemma_recon_split(vs: Seq<int>, ms: Seq<int>, j: int, k: int, n: int)
    requires
        0 <= j <= k <= n <= vs.len(),
        vs.len() <= ms.len(),
    ensures
        recon(vs, ms, j, n) == recon(vs, ms, j, k) + prod_range(ms, j, k) * recon(vs, ms, k, n),
    decreases k - j,
{
    if j == k {
        assert(1 * recon(vs, ms, k, n) == recon(vs, ms, k, n)) by (nonlinear_arith);
    } else {
        lemma_recon_split(vs, ms, j + 1, k, n);
        let a = vs[j];
        let b = ms[j];
        let x = recon(vs, ms, j + 1, k);
        let p = prod_range(ms, j + 1, k);
        let r = recon(vs, ms, k, n);
        assert(a + b * (x + p * r) == (a + b * x) + (b * p) * r) by (nonlinear_arith);
    }
}

/// Reconstruction of a segment reads no entry at or beyond its end.
pub proof fn lemma_recon_push(vs: Seq<int>, ms: Seq<int>, z: int, j: int, k: int)
    requires
        0 <= j,
        k <= vs.len(),
        vs.len() < ms.len() + 1,
    ensures
        recon(vs.push(z), ms, j, k) == recon(vs, ms, j, k),
    decreases k - j,
{
    if j < k {
        lemma_recon_push(vs, ms, z, j + 1, k);
        assert(vs.push(z)[j] == vs[j]);
    }
}

/// Every modulus of a segment divides the segment's product.
pub proof fn lemma_prod_range_divides(ms: Seq<int>, j: int, i: int, k: int)
    requires
        0 <= j <= i < k <= ms.len(),
    ensures
        divides(ms[i], prod_range(ms, j, k)),
    decreases i - j,
{
    if i == j {
        let p = prod_range(ms, j + 1, k);
        assert(ms[j] * p == p * ms[j]) by (nonlinear_arith);
    } else {
        lemma_prod_range_divides(ms, j + 1, i, k);
        let c = choose|c: int| prod_range(ms, j + 1, k) == #[trigger] (c * ms[i]);
        assert(ms[j] * prod_range(ms, j + 1, k) == (ms[j] * c) * ms[i]) by (nonlinear_arith)
            requires
                prod_range(ms, j + 1, k) == c * ms[i],
        ;
    }
}

/// A segment product grows on the right by one factor.
pub proof fn lemma_prod_range_snoc(ms: Seq<int>, j: int, k: int)
    requires
        0 <= j <= k < ms.len(),
    ensures
        prod_range(ms, j, k + 1) == prod_range(ms, j, k) * ms[k],
    decreases k - j,
{
    if j == k {
        assert(prod_range(ms, k + 1, k + 1) == 1);
        assert(prod_range(ms, k, k + 1) == ms[k] * 1);
        assert(ms[k] * 1 == 1 * ms[k]) by (nonlinear_arith);
    } else {
        lemma_prod_range_snoc(ms, j + 1, k);
        assert(ms[j] * (prod_range(ms, j + 1, k) * ms[k]) == (ms[j] * prod_range(ms, j + 1, k))
            * ms[k]) by (nonlinear_arith);
    }
}

/// The product of the moduli before `i`, reduced modulo `ms[i]` after each
/// factor, exactly as the combining algorithm computes the argument whose
/// inverse it takes at step `i`.
pub open spec fn crt_coef_arg(ms: Seq<int>, i: int, j: int) -> int
    recommends
        0 <= i < ms.len(),
        ms[i] != 0,
        0 <= j <= i,
    decreases j,
{
    if j <= 0 {
        1
    } else {
        trem(crt_coef_arg(ms, i, j - 1) * ms[j - 1], ms[i])
    }
}

/// The step-`i` inverse argument is congruent to the plain product of the
/// moduli before `i`.
pub proof fn lemma_crt_coef_cong(ms: Seq<int>, i: int, j: int)
    requires
        0 <= i < ms.len(),
        ms[i] != 0,
        0 <= j <= i,
    ensures
        cong(ms[i], crt_coef_arg(ms, i, j), prod_range(ms, 0, j)),
    decreases j,
{
    if j == 0 {
        lemma_cong_refl(ms[i], 1);
    } else {
        lemma_crt_coef_cong(ms, i, j - 1);
        lemma_cong_refl(ms[i], ms[j - 1]);
        lemma_cong_mul(
            ms[i],
            crt_coef_arg(ms, i, j - 1),
            prod_range(ms, 0, j - 1),
            ms[j - 1],
            ms[j - 1],
        );
        lemma_prod_range_snoc(ms, 0, j - 1);
        lemma_cong_trem(ms[i], crt_coef_arg(ms, i, j - 1) * ms[j - 1]);
        lemma_cong_trans(
            ms[i],
            crt_coef_arg(ms, i, j),
            crt_coef_arg(ms, i, j - 1) * ms[j - 1],
            prod_range(ms, 0, j),
        );
    }
}


/// The gcd's behaviour on the additive identity: `gcd(a,0) = gcd(0,a) = a`,
/// and in particular `gcd(0,0) = 0`.
pub proof fn lemma_gcd_identities(a: int)
    ensures
        gcd_t(a, 0) == a,
        gcd_t(0, a) == a,
        gcd_t(0, 0) == 0,
{
    if a != 0 {
        lemma_trem_props(0, a);
        assert(trem(0, a) == 0);
        assert(gcd_t(0, a) == gcd_t(a, trem(0, a)) == gcd_t(a, 0) == a);
    }
}


/// A linear combination of `a` and `b`.
pub open spec fn comb(a: int, b: int, x: int, y: int) -> int {
    x * a + y * b
}

/// Some linear combination of `a` and `b` is `1`.
pub open spec fn bezout_one(a: int, b: int) -> bool {
    exists|x: int, y: int| #[trigger] comb(a, b, x, y) == 1
}

/// `a` and `b` have no common factor: their gcd normalizes to `1`.
pub open spec fn coprime(a: int, b: int) -> bool {
    mag(gcd_t(a, b)) == 1
}

/// The gcd divides both of its arguments.
pub proof fn lemma_gcd_divides(a: int, b: int)
    ensures
        divides(gcd_t(a, b), a),
        divides(gcd_t(a, b), b),
    decreases mag(b),
{
    if b == 0 {
        assert(a == 1 * a) by (nonlinear_arith);
        assert(0 == 0 * a) by (nonlinear_arith);
    } else {
        lemma_trem_props(a, b);
        lemma_gcd_divides(b, trem(a, b));
        let g = gcd_t(a, b);
        let k1 = choose|k: int| b == #[trigger] (k * g);
        let k2 = choose|k: int| trem(a, b) == #[trigger] (k * g);
        assert(a == (k1 * tdiv(a, b) + k2) * g) by (nonlinear_arith)
            requires
                a == b * tdiv(a, b) + trem(a, b),
                b == k1 * g,
                trem(a, b) == k2 * g,
        ;
    }
}

/// Bezout coefficients exist: some linear combination of `a` and `b` equals
/// their gcd.
pub proof fn lemma_bezout_exists(a: int, b: int)
    ensures
        exists|x: int, y: int| #[trigger] comb(a, b, x, y) == gcd_t(a, b),
    decreases mag(b),
{
    if b == 0 {
        assert(comb(a, b, 1, 0) == a) by (nonlinear_arith);
    } else {
        lemma_trem_props(a, b);
        lemma_bezout_exists(b, trem(a, b));
        let (x1, y1) = choose|x: int, y: int|
            #[trigger] comb(b, trem(a, b), x, y) == gcd_t(b, trem(a, b));
        assert(comb(a, b, y1, x1 - y1 * tdiv(a, b)) == gcd_t(a, b)) by (nonlinear_arith)
            requires
                x1 * b + y1 * trem(a, b) == gcd_t(a, b),
                trem(a, b) == a - b * tdiv(a, b),
                comb(a, b, y1, x1 - y1 * tdiv(a, b)) == y1 * a + (x1 - y1 * tdiv(a, b)) * b,
        ;
    }
}

/// Two values are coprime exactly when some linear combination of them is
/// the multiplicative identity.
pub proof fn lemma_coprime_iff_bezout(a: int, b: int)
    ensures
        coprime(a, b) <==> bezout_one(a, b),
{
    if coprime(a, b) {
        lemma_bezout_exists(a, b);
        let (x, y) = choose|x: int, y: int| #[trigger] comb(a, b, x, y) == gcd_t(a, b);
        if gcd_t(a, b) == 1 {
            assert(comb(a, b, x, y) == 1);
        } else {
            assert(gcd_t(a, b) == -1);
            assert(comb(a, b, -x, -y) == 1) by (nonlinear_arith)
                requires
                    x * a + y * b == -1,
                    comb(a, b, -x, -y) == (-x) * a + (-y) * b,
            ;
        }
    }
    if bezout_one(a, b) {
        let (x, y) = choose|x: int, y: int| #[trigger] comb(a, b, x, y) == 1;
        lemma_gcd_divides(a, b);
        let g = gcd_t(a, b);
        let k1 = choose|k: int| a == #[trigger] (k * g);
        let k2 = choose|k: int| b == #[trigger] (k * g);
        assert(mag(x * k1 + y * k2) * mag(g) == 1 && mag(g) >= 0 && mag(x * k1 + y * k2) >= 0)
            by (nonlinear_arith)
            requires
                x * a + y * b == 1,
                a == k1 * g,
                b == k2 * g,
        ;
        assert(mag(g) == 1) by (nonlinear_arith)
            requires
                mag(x * k1 + y * k2) * mag(g) == 1,
                mag(g) >= 0,
                mag(x * k1 + y * k2) >= 0,
        ;
    }
}

/// Coprimality to a modulus is closed under multiplication.
pub proof fn lemma_coprime_mul(a: int, b: int, m: int)
    requires
        bezout_one(a, m),
        bezout_one(b, m),
    ensures
        bezout_one(a * b, m),
{
    let (x1, y1) = choose|x: int, y: int| #[trigger] comb(a, m, x, y) == 1;
    let (x2, y2) = choose|x: int, y: int| #[trigger] comb(b, m, x, y) == 1;
    let p = x1 * a;
    let q = y1 * m;
    let r = x2 * b;
    let t = y2 * m;
    assert((p + q) * (r + t) == 1) by (nonlinear_arith)
        requires
            p + q == 1,
            r + t == 1,
    ;
    assert((p + q) * (r + t) == p * r + p * t + q * r + q * t) by (nonlinear_arith);
    assert(p * r == (x1 * x2) * (a * b)) by (nonlinear_arith)
        requires
            p == x1 * a,
            r == x2 * b,
    ;
    assert(p * t == (x1 * a * y2) * m) by (nonlinear_arith)
        requires
            p == x1 * a,
            t == y2 * m,
    ;
    assert(q * r == (y1 * x2 * b) * m) by (nonlinear_arith)
        requires
            q == y1 * m,
            r == x2 * b,
    ;
    assert(q * t == (y1 * y2 * m) * m) by (nonlinear_arith)
        requires
            q == y1 * m,
            t == y2 * m,
    ;
    assert((x1 * a * y2) * m + (y1 * x2 * b) * m + (y1 * y2 * m) * m == (x1 * a * y2 + y1 * x2
        * b + y1 * y2 * m) * m) by (nonlinear_arith);
    assert(comb(a * b, m, x1 * x2, x1 * a * y2 + y1 * x2 * b + y1 * y2 * m) == 1);
}

/// Reducing modulo `m` does not change coprimality to `m`.
pub proof fn lemma_coprime_trem(x: int, m: int)
    requires
        m != 0,
        bezout_one(x, m),
    ensures
        bezout_one(trem(x, m), m),
{
    let (u, v) = choose|p: int, q: int| #[trigger] comb(x, m, p, q) == 1;
    assert(comb(trem(x, m), m, u, v + u * tdiv(x, m)) == 1) by (nonlinear_arith)
        requires
            u * x + v * m == 1,
            trem(x, m) == x - m * tdiv(x, m),
            comb(trem(x, m), m, u, v + u * tdiv(x, m)) == u * trem(x, m) + (v + u * tdiv(x, m))
                * m,
    ;
}

/// Under step-wise reduction, the inverse argument of each combination step
/// stays coprime to its modulus when the moduli are pairwise coprime.
pub proof fn lemma_coef_arg_coprime(ms: Seq<int>, i: int, j: int)
    requires
        0 <= i < ms.len(),
        ms[i] != 0,
        0 <= j <= i,
        forall|t: int| 0 <= t < i ==> coprime(#[trigger] ms[t], ms[i]),
    ensures
        bezout_one(crt_coef_arg(ms, i, j), ms[i]),
    decreases j,
{
    if j == 0 {
        assert(comb(1, ms[i], 1, 0) == 1) by (nonlinear_arith);
    } else {
        lemma_coef_arg_coprime(ms, i, j - 1);
        lemma_coprime_iff_bezout(ms[j - 1], ms[i]);
        lemma_coprime_mul(crt_coef_arg(ms, i, j - 1), ms[j - 1], ms[i]);
        lemma_coprime_trem(crt_coef_arg(ms, i, j - 1) * ms[j - 1], ms[i]);
    }
}


} // verus!
