use ring_algorithm::bigint::Int;
use ring_algorithm::{
    chinese_remainder_theorem, extended_euclidian_algorithm, gcd, is_coprime, modulo_divison,
    modulo_inverse, normalized_extended_euclidian_algorithm, power, times,
};

fn bi(v: i64) -> Int {
    Int::from_i64(v)
}

fn assert_int_eq(a: &Int, v: i64) {
    assert!(a.eq_val(&bi(v)));
}

#[test]
fn test_times() {
    let x = times(bi(42), 756);
    assert_int_eq(&x, 31752);
    let z = times(bi(42), 0);
    assert_int_eq(&z, 0);
}

#[test]
fn test_power() {
    let x = power(bi(3), 4);
    assert_int_eq(&x, 81);
    let o = power(bi(3), 0);
    assert_int_eq(&o, 1);
}

#[test]
fn test_gcd() {
    assert_int_eq(&gcd(bi(0), bi(0)), 0);
    assert_int_eq(&gcd(bi(42), bi(0)), 42);
    assert_int_eq(&gcd(bi(0), bi(42)), 42);
    assert_int_eq(&gcd(bi(64), bi(58)), 2);
    assert_int_eq(&gcd(bi(97), bi(89)), 1);
}

#[test]
fn test_gcd2() {
    // larger values, exercising the arbitrary-precision arithmetic
    let a = bi(3_000_000_000_000_000_000);
    let b = bi(2_000_000_000_000_000_000);
    assert_int_eq(&gcd(a, b), 1_000_000_000_000_000_000);
    assert_int_eq(&gcd(bi(0), bi(5)), 5);
    assert_int_eq(&gcd(bi(5), bi(0)), 5);
    assert_int_eq(&gcd(bi(-12), bi(18)), 6);
    assert_int_eq(&gcd(bi(12), bi(-18)), -6);
}

fn check_eea(a: i64, b: i64) {
    let (d, x, y) = extended_euclidian_algorithm(bi(a), bi(b));
    let lhs = x.mul_ref(&bi(a)).add_ref(&y.mul_ref(&bi(b)));
    assert!(lhs.eq_val(&d));
    assert!(d.eq_val(&gcd(bi(a), bi(b))));
}

#[test]
fn test_eea() {
    check_eea(42, 64);
    check_eea(64, 58);
    check_eea(58, 97);
    check_eea(97, 89);
    check_eea(89, 42);
}

#[test]
fn test_eea2() {
    check_eea(-42, 64);
    check_eea(42, -64);
    check_eea(-42, -64);
    check_eea(0, 0);
}

fn check_neea(a: i64, b: i64, g: i64) {
    let (d, x, y) = normalized_extended_euclidian_algorithm(bi(a), bi(b));
    assert_int_eq(&d, g);
    let lhs = x.mul_ref(&bi(a)).add_ref(&y.mul_ref(&bi(b)));
    assert!(lhs.eq_val(&d));
}

#[test]
fn test_neea() {
    check_neea(42, 64, 2);
    check_neea(64, 58, 2);
    check_neea(58, 97, 1);
    check_neea(97, 89, 1);
    check_neea(89, 42, 1);
}

#[test]
fn test_neea2() {
    // the returned gcd is canonical (non-negative) whatever the signs
    check_neea(-42, 64, 2);
    check_neea(42, -64, 2);
    check_neea(-42, -64, 2);
    check_neea(0, 0, 0);
}

fn check_mod_inv(a: i64, m: i64) {
    let inv = modulo_inverse(bi(a), bi(m)).unwrap();
    let r = bi(a).mul_ref(&inv).sub_ref(&bi(1)).rem_ref(&bi(m));
    assert!(r.eq_val(&bi(0)));
}

#[test]
fn test_mod_inv() {
    check_mod_inv(42, 55);
    check_mod_inv(55, 42);
    check_mod_inv(58, 97);
    check_mod_inv(97, 89);
    check_mod_inv(89, 42);
    assert!(modulo_inverse(bi(42), bi(64)).is_none());
    assert!(modulo_inverse(bi(15), bi(55)).is_none());
    assert!(modulo_inverse(bi(64), bi(58)).is_none());
}

#[test]
fn test_mod_inv2() {
    check_mod_inv(42, 11);
    check_mod_inv(11, 42);
    check_mod_inv(1, 11);
    check_mod_inv(10, 11);
    check_mod_inv(-42, 11);
    assert!(modulo_inverse(bi(0), bi(11)).is_none());
    assert!(modulo_inverse(bi(22), bi(11)).is_none());
    assert!(modulo_inverse(bi(0), bi(0)).is_none());
}

#[test]
fn test_crt() {
    let primes: Vec<i64> = vec![11, 13, 17, 19, 23, 29, 31, 37, 41, 43];
    let residues: Vec<i64> = vec![1, 2, 3, 4, 5, 6, 7, 8, 9, 10];
    let m: Vec<Int> = primes.iter().map(|&p| bi(p)).collect();
    let u: Vec<Int> = residues.iter().map(|&r| bi(r)).collect();
    let a = chinese_remainder_theorem(&u, &m).unwrap();
    for (&r, &p) in residues.iter().zip(primes.iter()) {
        let rem = a.sub_ref(&bi(r)).rem_ref(&bi(p));
        assert!(rem.eq_val(&bi(0)));
    }
}

#[test]
fn test_gcd_scenarios() {
    assert_int_eq(&gcd(bi(15), bi(21)), 3);
    assert_int_eq(&gcd(bi(14), bi(15)), 1);
    assert_int_eq(&gcd(bi(0), bi(0)), 0);
    assert_int_eq(&gcd(bi(0), bi(42)), 42);
}

#[test]
fn test_is_coprime() {
    assert!(is_coprime(bi(14), bi(15)));
    assert!(!is_coprime(bi(15), bi(21)));
    assert!(is_coprime(bi(-14), bi(15)));
    assert!(!is_coprime(bi(0), bi(0)));
    assert!(is_coprime(bi(1), bi(0)));
}

#[test]
fn test_mod_inv_scenario() {
    let inv = modulo_inverse(bi(42), bi(55)).unwrap();
    let r = bi(42).mul_ref(&inv).sub_ref(&bi(1)).rem_ref(&bi(55));
    assert!(r.eq_val(&bi(0)));
}

#[test]
fn test_modulo_divison() {
    let x = modulo_divison(bi(42), bi(32), bi(98)).unwrap();
    let r = bi(32).mul_ref(&x).sub_ref(&bi(42)).rem_ref(&bi(98));
    assert!(r.eq_val(&bi(0)));
    // no solution: gcd(2, 4) = 2 does not divide 1
    assert!(modulo_divison(bi(1), bi(2), bi(4)).is_none());
    // subsumes the inverse as the case a = 1
    let y = modulo_divison(bi(1), bi(42), bi(55)).unwrap();
    let s = bi(42).mul_ref(&y).sub_ref(&bi(1)).rem_ref(&bi(55));
    assert!(s.eq_val(&bi(0)));
}

#[test]
fn test_crt_scenario() {
    let u = vec![bi(2), bi(3), bi(2)];
    let m = vec![bi(3), bi(5), bi(7)];
    let a = chinese_remainder_theorem(&u, &m).unwrap();
    assert_int_eq(&a, 23);
    for (ui, mi) in [(2i64, 3i64), (3, 5), (2, 7)] {
        let rem = a.sub_ref(&bi(ui)).rem_ref(&bi(mi));
        assert!(rem.eq_val(&bi(0)));
    }
}

#[test]
fn test_crt_absence() {
    // unequal lengths
    let u = vec![bi(1), bi(2)];
    let m = vec![bi(3)];
    assert!(chinese_remainder_theorem(&u, &m).is_none());
    // a step without a modular inverse: 2 and 4 share a factor
    let u2 = vec![bi(1), bi(1)];
    let m2 = vec![bi(2), bi(4)];
    assert!(chinese_remainder_theorem(&u2, &m2).is_none());
}

#[test]
fn test_int_truncated_division() {
    // quotients round toward zero; remainders carry the dividend's sign
    assert_int_eq(&bi(7).div_ref(&bi(2)), 3);
    assert_int_eq(&bi(-7).div_ref(&bi(2)), -3);
    assert_int_eq(&bi(7).div_ref(&bi(-2)), -3);
    assert_int_eq(&bi(-7).div_ref(&bi(-2)), 3);
    assert_int_eq(&bi(7).rem_ref(&bi(2)), 1);
    assert_int_eq(&bi(-7).rem_ref(&bi(2)), -1);
    assert_int_eq(&bi(7).rem_ref(&bi(-2)), 1);
    assert_int_eq(&bi(-7).rem_ref(&bi(-2)), -1);
}

#[test]
fn test_int_ring_ops() {
    assert_int_eq(&bi(2).add_ref(&bi(3)), 5);
    assert_int_eq(&bi(2).sub_ref(&bi(3)), -1);
    assert_int_eq(&bi(2).mul_ref(&bi(3)), 6);
    assert_int_eq(&bi(5).neg_val(), -5);
    assert_int_eq(&bi(-5).abs_val(), 5);
    assert_int_eq(&bi(-5).sign_unit(), -1);
    assert_int_eq(&bi(5).sign_unit(), 1);
    assert_int_eq(&bi(0).sign_unit(), 1);
    assert!(bi(4).is_zero() == false);
    assert!(bi(0).is_zero());
    assert!(bi(1).is_one());
}
