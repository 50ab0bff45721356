//! An earlier variant of the modular integer type, kept with its own
//! behaviour: its division leaves the quotient's value unnormalized.

use vstd::prelude::*;
use vstd::arithmetic::div_mod::{
    lemma_mod_add_multiples_vanish, lemma_mul_mod_noop_general, lemma_small_mod,
};
use crate::arith::{lemma_div_congruence, lemma_trunc_mod_props, trunc_mod};

verus! {

/// A modular integer: a value carried together with its modulus.
#[derive(Clone, Copy, PartialEq, Eq, Structural, Debug)]
pub struct ModInt {
    pub value: i64,
    pub modulus: i64,
}

impl ModInt {
    /// Construct a new modular integer, normalized into `[0, modulus)`.
    pub fn new(v: i64, m: i64) -> (r: ModInt)
        requires
            m >= 1,
        ensures
            r.modulus == m,
            0 <= r.value < m,
            r.value as int == (v as int) % (m as int),
    {
        let t = v % m;
        proof {
            lemma_trunc_mod_props(v as int, m as int);
            if t >= 0 {
                lemma_small_mod(t as nat, m as nat);
            } else {
                lemma_mod_add_multiples_vanish(t as int, m as int);
                lemma_small_mod((t + m) as nat, m as nat);
            }
        }
        if t >= 0 {
            ModInt { value: t, modulus: m }
        } else {
            ModInt { value: t + m, modulus: m }
        }
    }

    /// Construct a new modular integer without normalizing the value.
    pub fn new_nocheck(v: i64, m: i64) -> (r: ModInt)
        ensures
            r.value == v,
            r.modulus == m,
    {
        ModInt { value: v, modulus: m }
    }

    /// The sum, reduced by the receiver's modulus with a truncated remainder.
    pub fn add(&self, other: &ModInt) -> (r: ModInt)
        requires
            self.modulus >= 1,
            i64::MIN <= self.value + other.value <= i64::MAX,
        ensures
            r.modulus == self.modulus,
            r.value as int == trunc_mod(self.value + other.value, self.modulus as int),
    {
        ModInt::new_nocheck((self.value + other.value) % self.modulus, self.modulus)
    }

    /// The difference, reduced by the receiver's modulus with a truncated
    /// remainder; a negative result is not renormalized.
    pub fn sub(&self, other: &ModInt) -> (r: ModInt)
        requires
            self.modulus >= 1,
            i64::MIN <= self.value - other.value <= i64::MAX,
        ensures
            r.modulus == self.modulus,
            r.value as int == trunc_mod(self.value - other.value, self.modulus as int),
    {
        ModInt::new_nocheck((self.value - other.value) % self.modulus, self.modulus)
    }

    /// The product, reduced by the receiver's modulus with a truncated
    /// remainder.
    pub fn mul(&self, other: &ModInt) -> (r: ModInt)
        requires
            self.modulus >= 1,
            i64::MIN <= (self.value as int) * (other.value as int) <= i64::MAX,
        ensures
            r.modulus == self.modulus,
            r.value as int == trunc_mod(
                (self.value as int) * (other.value as int),
                self.modulus as int,
            ),
    {
        ModInt::new_nocheck((self.value * other.value) % self.modulus, self.modulus)
    }

    /// The quotient: multiplies by a modular inverse of `other`'s value and
    /// reduces with a truncated remainder, without renormalizing. The
    /// inverse must exist.
    pub fn div(&self, other: &ModInt) -> (r: ModInt)
        requires
            self.modulus >= 1,
            (self.modulus as int) * (self.modulus as int) <= i64::MAX as int,
            0 <= self.value < self.modulus,
            0 <= other.value < self.modulus,
            exists|x: int|
                #[trigger] (((other.value as int) * x) % (self.modulus as int)) == 1int % (
                self.modulus as int),
        ensures
            r.modulus == self.modulus,
            -self.modulus < r.value < self.modulus,
            ((r.value as int) * (other.value as int)) % (self.modulus as int) == self.value as int,
            exists|i: int|
                #[trigger] (((other.value as int) * i) % (self.modulus as int)) == 1int % (
                self.modulus as int) && -(self.modulus as int) <= i <= self.modulus as int
                    && r.value as int == crate::arith::trunc_mod(
                    (self.value as int) * i,
                    self.modulus as int,
                ),
    {
        let m = self.modulus;
        let ghost mi = m as int;
        let inv = crate::moduli::invert_mod(other.value, m);
        match inv {
            Some(i) => {
                proof {
                    assert(-(mi * mi) <= (self.value as int) * (i as int) && (self.value as int) * (
                    i as int) <= mi * mi) by (nonlinear_arith)
                        requires
                            0 <= (self.value as int) && (self.value as int) < mi,
                            -mi <= (i as int) && (i as int) <= mi,
                            mi >= 1,
                    ;
                }
                let r = ModInt::new_nocheck(self.value * i % m, m);
                proof {
                    lemma_trunc_mod_props((self.value as int) * (i as int), mi);
                    assert((i as int) * (other.value as int) == (other.value as int) * (i as int));
                    lemma_div_congruence(
                        self.value as int,
                        other.value as int,
                        i as int,
                        r.value as int,
                        mi,
                    );
                    lemma_small_mod(self.value as nat, mi as nat);
                }
                r
            },
            None => {
                proof {
                    let x = choose|x: int|
                        #[trigger] (((other.value as int) * x) % mi) == 1int % mi;
                    assert(false);
                }
                vstd::pervasive::unreached()
            },
        }
    }
}

} // verus!
