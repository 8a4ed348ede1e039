use ring_algorithm::gf2::Gf2;
use ring_algorithm::polynomial::Polynomial;
use ring_algorithm::ring_traits::{RingNormalize, UnitaryRing};

fn z() -> Gf2 {
    Gf2::zero()
}

fn o() -> Gf2 {
    Gf2::one()
}

/// Build a polynomial from low-to-high coefficient booleans.
fn poly(bits: &[bool]) -> Polynomial {
    let coef: Vec<Gf2> = bits.iter().map(|&b| if b { o() } else { z() }).collect();
    Polynomial::new(coef)
}

#[test]
fn test_new_trims_trailing_zeros() {
    let p = poly(&[true, false, true, false, false]);
    assert_eq!(p.deg(), Some(2));
    let q = poly(&[false, false, false]);
    assert_eq!(q.deg(), None);
    assert!(q.is_zero());
}

#[test]
fn test_zero_has_no_degree() {
    let p = Polynomial::zero();
    assert_eq!(p.deg(), None);
    assert_eq!(p.lc(), None);
    assert!(p.is_zero());
}

#[test]
fn test_from_monomial() {
    let p = Polynomial::from_monomial(o(), 3);
    assert_eq!(p.deg(), Some(3));
    assert_eq!(p.lc(), Some(o()));
    let q = Polynomial::from_monomial(z(), 3);
    assert!(q.is_zero());
}

#[test]
fn test_add_sub_round_trip() {
    // (f + g) - g == f
    let f = poly(&[true, false, true, true]);
    let g = poly(&[false, true, true, true]);
    let mut s = f.add_ref(&g);
    s.sub_assign_ref(&g);
    assert!(s.eq_val(&f));
    // top-degree cancellation: the x^2 and x^3 terms collapse
    let sum = f.add_ref(&g);
    assert_eq!(sum.deg(), Some(1));
}

#[test]
fn test_mul() {
    // (x + 1) * (x + 1) == x^2 + 1 in characteristic two
    let f = poly(&[true, true]);
    let sq = f.mul_ref(&f);
    assert!(sq.eq_val(&poly(&[true, false, true])));
    // multiplication by zero
    let zp = Polynomial::zero();
    assert!(f.mul_ref(&zp).is_zero());
    // multiplication by one
    let one = Polynomial::one();
    assert!(f.mul_ref(&one).eq_val(&f));
}

#[test]
fn test_division_round_trip() {
    // f = x^3 + x + 1, g = x^2 + 1: f == x*g + 1
    let f = poly(&[true, true, false, true]);
    let g = poly(&[true, false, true]);
    let mut rem = f.clone_val();
    let q = rem.division(&g);
    assert!(q.eq_val(&poly(&[false, true])));
    assert!(rem.eq_val(&poly(&[true])));
    let back = q.mul_ref(&g).add_ref(&rem);
    assert!(back.eq_val(&f));
}

#[test]
fn test_division_small_dividend() {
    let f = poly(&[true, true]);
    let g = poly(&[true, false, true]);
    let mut rem = f.clone_val();
    let q = rem.division(&g);
    assert!(q.is_zero());
    assert!(rem.eq_val(&f));
}

#[test]
fn test_monic_leading_coefficient() {
    let mut f = poly(&[true, true, true]);
    f.monic();
    assert_eq!(f.lc(), Some(o()));
    assert!(f.eq_val(&poly(&[true, true, true])));
}

#[test]
fn test_eval() {
    // f = x^3 + x + 1
    let f = poly(&[true, true, false, true]);
    assert_eq!(f.eval(&o()), o());
    assert_eq!(f.eval(&z()), o());
    // g = x^2 + x
    let g = poly(&[false, true, true]);
    assert_eq!(g.eval(&o()), z());
    assert_eq!(g.eval(&z()), z());
    assert_eq!(Polynomial::zero().eval(&o()), z());
}

#[test]
fn test_ring_normalize() {
    let f = poly(&[true, true]);
    let lu = RingNormalize::leading_unit(&f);
    assert!(lu.eq_val(&Polynomial::one()));
    let n = RingNormalize::normalize(&f);
    assert!(n.eq_val(&f));
    assert!(RingNormalize::is_similar(&f, &f));
    let zu = RingNormalize::leading_unit(&Polynomial::zero());
    assert!(zu.eq_val(&Polynomial::one()));
}

#[test]
fn test_gf2_field_ops() {
    assert_eq!(o().add_val(&o()), z());
    assert_eq!(o().add_val(&z()), o());
    assert_eq!(o().sub_val(&o()), z());
    assert_eq!(o().mul_val(&o()), o());
    assert_eq!(o().mul_val(&z()), z());
    assert_eq!(o().div_val(&o()), o());
    assert_eq!(z().div_val(&o()), z());
    assert_eq!(o().neg_val(), o());
    assert!(z().is_zero());
    assert!(o().is_one());
}

#[test]
fn test_unitary_ring_trait() {
    let mut f: Polynomial = UnitaryRing::zero();
    assert!(f.is_zero());
    let g = poly(&[true, true]);
    f.add_assign_ref(&g);
    assert!(f.eq_val(&g));
    let one: Polynomial = UnitaryRing::one();
    assert_eq!(one.deg(), Some(0));
}

#[test]
fn test_display_string() {
    assert_eq!(Polynomial::zero().to_display_string(), "0");
    assert_eq!(Polynomial::one().to_display_string(), "1");
    assert_eq!(poly(&[false, true]).to_display_string(), "x");
    assert_eq!(poly(&[true, true]).to_display_string(), "x+1");
    // x^3 + x + 1
    assert_eq!(poly(&[true, true, false, true]).to_display_string(), "x^3+x+1");
    let big = Polynomial::from_monomial(o(), 12);
    assert_eq!(big.to_display_string(), "x^12");
}
