use cp_lib::gcd::gcd;
use cp_lib::modulo::ModMath;
use cp_lib::modulo::MOD;

#[test]
fn test() {
    for &(x, y, g) in &[
        (1, 2, 1),
        (0, 1, 1),
        (0, 9, 9),
        (1, 1, 1),
        (1, 9, 1),
        (2, 8, 2),
        (6, 9, 3),
    ] {
        assert_eq!(g as u64, gcd(x as u64, y as u64));
    }
}

#[test]
fn mexp() {
    assert_eq!(568493343, 2u128.mpow(293322));
}

#[test]
fn modular_add_wraps_once() {
    let mut a: u128 = MOD - 1;
    assert_eq!(a.madd(1), 0);
    assert_eq!(a, 0);
    let mut b: u128 = 5;
    assert_eq!(b.madd(7), 12);
}

#[test]
fn modular_sub_wraps_once() {
    let mut a: u128 = 3;
    assert_eq!(a.msub(5), MOD - 2);
    let mut b: u128 = 9;
    assert_eq!(b.msub(4), 5);
}

#[test]
fn modular_mul_and_div() {
    let a: u128 = 123_456_789;
    let b: u128 = 987_654_321;
    let p = a.mmul(b);
    assert_eq!(p, a * b % MOD);
    assert_eq!(p.mdiv(b), a);
}

#[test]
fn inverse_cancels() {
    let a: u128 = 2;
    assert_eq!(a.mmul(a.minverse()), 1);
}

#[test]
fn zero_exponent() {
    assert_eq!(5u128.mpow(0), 1);
}
