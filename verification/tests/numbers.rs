use algoritmoi::combinatorics::binomial;
use algoritmoi::modint::{bezout, mod_inverse, ModInt};
use algoritmoi::moduli::invert_mod;

#[test]
fn binomial_values() {
    assert_eq!(binomial(5, 2), 10);
    assert_eq!(binomial(10, 0), 1);
    assert_eq!(binomial(3, 5), 0);
    assert_eq!(binomial(0, 0), 1);
    assert_eq!(binomial(6, 3), 20);
    assert_eq!(binomial(10, 7), 120);
}

#[test]
fn mod_inverse_values() {
    assert_eq!(mod_inverse(3, 7), Some(5));
    assert_eq!(mod_inverse(2, 4), None);
    assert_eq!(mod_inverse(1, 2), Some(1));
    assert_eq!(mod_inverse(10, 17), Some(12));
    assert_eq!(mod_inverse(1, 1), Some(0));
    assert_eq!(mod_inverse(7, 7), None);
}

#[test]
fn bezout_combination() {
    let (x, y, g) = bezout(12, 30);
    assert_eq!(g, 6);
    assert_eq!(12 * x + 30 * y, 6);
    let (x2, y2, g2) = bezout(35, 12);
    assert_eq!(g2, 1);
    assert_eq!(35 * x2 + 12 * y2, 1);
    let (x0, y0, g0) = bezout(0, 9);
    assert_eq!((x0, y0, g0), (0, 1, 9));
    let (x3, y3, g3) = bezout(3, 3);
    assert_eq!(g3, 3);
    assert_eq!(3 * x3 + 3 * y3, 3);
}

#[test]
fn invert_mod_is_an_inverse() {
    let inv = invert_mod(3, 7).unwrap();
    assert_eq!((3 * inv).rem_euclid(7), 1);
    assert_eq!(invert_mod(6, 9), None);
}

#[test]
fn modint_arithmetic() {
    let a = ModInt::new(15, 7);
    assert_eq!(a.value, 1);
    let neg = ModInt::new(-2, 7);
    assert_eq!(neg.value, 5);
    let b = ModInt::new(4, 7);
    assert_eq!(a.add(&b).value, 5);
    assert_eq!(a.sub(&b).value, -3);
    assert_eq!(b.mul(&b).value, 2);
}

#[test]
fn modint_pow() {
    let a = ModInt::new(3, 1000000007);
    assert_eq!(a.pow(0).value, 1);
    assert_eq!(a.pow(1).value, 3);
    assert_eq!(a.pow(10).value, 59049);
    let big = a.pow(40);
    assert_eq!(big.value, 953271190);
}

#[test]
fn modint_div() {
    let a = ModInt::new(6, 7);
    let b = ModInt::new(3, 7);
    let q = a.div(&b);
    assert_eq!(q.value, 2);
    // a variant type of the same shape keeps the unnormalized quotient
    let c = algoritmoi::number::ModInt::new(6, 7);
    let d = algoritmoi::number::ModInt::new(3, 7);
    let q2 = c.div(&d);
    assert_eq!((q2.value * 3).rem_euclid(7), 6);
}
