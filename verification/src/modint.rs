//! Number theory: a modular integer type over an extended-Euclidean core.

use vstd::prelude::*;
use vstd::arithmetic::power::pow;
use vstd::arithmetic::div_mod::{
    lemma_mod_add_multiples_vanish, lemma_mod_bound, lemma_mul_mod_noop_general, lemma_small_mod,
};
use crate::arith::{
    lemma_div_congruence, lemma_pow_loop_step, lemma_trunc_mod_props, trunc_mod,
};
use crate::moduli::is_gcd;

verus! {

/// A modular integer type: a value carried together with its modulus.
///
/// `new` normalizes the value into `[0, modulus)`; `new_nocheck` and the
/// arithmetic methods do not, so a negative value produced by a truncated
/// remainder is kept as it is.
#[derive(Clone, Copy, PartialEq, Eq, Structural, Debug)]
pub struct ModInt {
    pub value: i64,
    pub modulus: i64,
}

impl ModInt {
    /// Construct a new modular integer with given value and modulus,
    /// normalized into `[0, modulus)`.
    pub fn new(v: i64, m: i64) -> (r: ModInt)
        requires
            m >= 1,
        ensures
            r.modulus == m,
            0 <= r.value < m,
            r.value as int == (v as int) % (m as int),
    {
        let t = v % m;
        proof {
            lemma_trunc_mod_props(v as int, m as int);
            if t >= 0 {
                lemma_small_mod(t as nat, m as nat);
            } else {
                lemma_mod_add_multiples_vanish(t as int, m as int);
                lemma_small_mod((t + m) as nat, m as nat);
            }
        }
        if t >= 0 {
            ModInt { value: t, modulus: m }
        } else {
            ModInt { value: t + m, modulus: m }
        }
    }

    /// Construct a new modular integer with given value and modulus.
    ///
    /// Doesn't normalize v to the range [0,m).
    pub fn new_nocheck(v: i64, m: i64) -> (r: ModInt)
        ensures
            r.value == v,
            r.modulus == m,
    {
        ModInt { value: v, modulus: m }
    }

    /// The sum, reduced by the receiver's modulus with a truncated remainder.
    pub fn add(&self, other: &ModInt) -> (r: ModInt)
        requires
            self.modulus >= 1,
            i64::MIN <= self.value + other.value <= i64::MAX,
        ensures
            r.modulus == self.modulus,
            r.value as int == trunc_mod(self.value + other.value, self.modulus as int),
    {
        ModInt::new_nocheck((self.value + other.value) % self.modulus, self.modulus)
    }

    /// The difference, reduced by the receiver's modulus with a truncated
    /// remainder; a negative result is not renormalized.
    pub fn sub(&self, other: &ModInt) -> (r: ModInt)
        requires
            self.modulus >= 1,
            i64::MIN <= self.value - other.value <= i64::MAX,
        ensures
            r.modulus == self.modulus,
            r.value as int == trunc_mod(self.value - other.value, self.modulus as int),
    {
        ModInt::new_nocheck((self.value - other.value) % self.modulus, self.modulus)
    }

    /// The product, reduced by the receiver's modulus with a truncated
    /// remainder.
    pub fn mul(&self, other: &ModInt) -> (r: ModInt)
        requires
            self.modulus >= 1,
            i64::MIN <= (self.value as int) * (other.value as int) <= i64::MAX,
        ensures
            r.modulus == self.modulus,
            r.value as int == trunc_mod((self.value as int) * (other.value as int), self.modulus as int),
    {
        ModInt::new_nocheck((self.value * other.value) % self.modulus, self.modulus)
    }

    /// Calculates `self` to the power `exp`, with the value normalized
    /// into `[0, modulus)`.
    pub fn pow(&self, exp: u64) -> (r: ModInt)
        requires
            self.modulus >= 1,
            (self.modulus as int) * (self.modulus as int) <= i64::MAX as int,
        ensures
            r.modulus == self.modulus,
            0 <= r.value < self.modulus,
            r.value as int == pow((self.value as int) % (self.modulus as int), exp as nat) % (
            self.modulus as int),
    {
        let m = self.modulus;
        let ghost mi = m as int;
        let base0 = ModInt::new(self.value, m);
        let ghost v0 = base0.value as int;
        proof {
            lemma_small_mod(v0 as nat, mi as nat);
            vstd::arithmetic::power::lemma_pow_mod_noop((self.value as int), exp as nat, mi);
        }
        if exp == 1 {
            proof {
                vstd::arithmetic::power::lemma_pow1(v0);
            }
            return base0;
        }
        let mut base = base0;
        let mut e = exp;
        let mut acc = ModInt::new(1, m);
        let ghost goal = pow(v0, exp as nat) % mi;
        proof {
            vstd::arithmetic::power::lemma_pow_mod_noop(v0, exp as nat, mi);
            lemma_mul_mod_noop_general(acc.value as int, pow(base.value as int, e as nat), mi);
            assert((1int % mi) * (pow(v0, exp as nat) % mi) % mi == goal) by {
                lemma_mul_mod_noop_general(1int, pow(v0, exp as nat), mi);
                assert(1int * pow(v0, exp as nat) == pow(v0, exp as nat));
            }
        }
        while e > 0
            invariant
                m == self.modulus,
                mi == m as int,
                m >= 1,
                mi * mi <= i64::MAX as int,
                acc.modulus == m,
                base.modulus == m,
                0 <= acc.value < m,
                0 <= base.value < m,
                goal == pow(v0, exp as nat) % mi,
                ((acc.value as int) * pow(base.value as int, e as nat)) % mi == goal,
            decreases e,
        {
            let ghost acc_old = acc.value as int;
            let ghost base_old = base.value as int;
            let ghost e_old = e as nat;
            proof {
                assert(0 <= acc_old * base_old && acc_old * base_old < mi * mi)
                    by (nonlinear_arith)
                    requires 0 <= acc_old < mi && 0 <= base_old < mi;
                assert(0 <= base_old * base_old && base_old * base_old < mi * mi)
                    by (nonlinear_arith)
                    requires 0 <= base_old < mi;
            }
            if e & 1 == 1 {
                acc = acc.mul(&base);
                proof {
                    lemma_trunc_mod_props(acc_old * base_old, mi);
                    lemma_mod_bound(acc_old * base_old, mi);
                }
            }
            let newbase = base.mul(&base);
            proof {
                lemma_trunc_mod_props(base_old * base_old, mi);
                lemma_mod_bound(base_old * base_old, mi);
                assert((e & 1) as int == (e as int) % 2) by (bit_vector);
                assert((e >> 1) as int == (e as int) / 2) by (bit_vector);
                lemma_small_mod(acc_old as nat, mi as nat);
                lemma_pow_loop_step(
                    acc_old,
                    base_old,
                    acc.value as int,
                    newbase.value as int,
                    e_old,
                    mi,
                    goal,
                );
            }
            base = newbase;
            e = e >> 1;
        }
        proof {
            vstd::arithmetic::power::lemma_pow0(base.value as int);
            assert((acc.value as int) * 1 == acc.value as int);
            lemma_small_mod(acc.value as nat, mi as nat);
        }
        acc
    }

    /// The quotient: multiplies by the modular inverse of `other`'s value,
    /// normalized into `[0, modulus)`. The inverse must exist.
    pub fn div(&self, other: &ModInt) -> (r: ModInt)
        requires
            self.modulus >= 1,
            (self.modulus as int) * (self.modulus as int) <= i64::MAX as int,
            0 <= self.value < self.modulus,
            0 <= other.value < self.modulus,
            exists|x: int|
                #[trigger] (((other.value as int) * x) % (self.modulus as int)) == 1int % (
                self.modulus as int),
        ensures
            r.modulus == self.modulus,
            0 <= r.value < self.modulus,
            ((r.value as int) * (other.value as int)) % (self.modulus as int) == self.value as int,
    {
        let m = self.modulus;
        let ghost mi = m as int;
        let inv = mod_inverse(other.value, m);
        match inv {
            Some(i) => {
                proof {
                    assert((self.value as int) * (i as int) < mi * mi) by (nonlinear_arith)
                        requires
                            0 <= (self.value as int) && (self.value as int) < mi,
                            0 <= (i as int) && (i as int) < mi,
                            mi >= 1,
                    ;
                    assert((self.value as int) * (i as int) >= 0) by (nonlinear_arith)
                        requires 0 <= (self.value as int) && 0 <= (i as int);
                }
                let t = self.value * i % m;
                let r = ModInt::new(t, m);
                proof {
                    lemma_trunc_mod_props((self.value as int) * (i as int), mi);
                    lemma_mod_bound((self.value as int) * (i as int), mi);
                    lemma_small_mod(t as nat, mi as nat);
                    assert((i as int) * (other.value as int) == (other.value as int) * (i as int));
                    lemma_div_congruence(
                        self.value as int,
                        other.value as int,
                        i as int,
                        r.value as int,
                        mi,
                    );
                    lemma_small_mod(self.value as nat, mi as nat);
                }
                r
            },
            None => {
                proof {
                    let x = choose|x: int|
                        #[trigger] (((other.value as int) * x) % mi) == 1int % mi;
                    assert(false);
                }
                vstd::pervasive::unreached()
            },
        }
    }
}

/// For given integers `a` and `b` returns three integers `(x, y, g)` that
/// satisfy ax + by = g and g=gcd(a,b).
pub fn bezout(a: i64, b: i64) -> (r: (i64, i64, i64))
    requires
        0 <= a,
        0 <= b,
    ensures
        (a as int) * (r.0 as int) + (b as int) * (r.1 as int) == r.2 as int,
        r.2 >= 0,
        a > 0 || b > 0 ==> r.2 >= 1,
        is_gcd(a as int, b as int, r.2 as int),
        a == 0 ==> r.0 == 0 && r.1 == 1 && r.2 == b,
{
    crate::moduli::bezout(a, b)
}

/// For integers `a` and `m` computes an integer `x` in `[0, m)` such that
/// ax = 1 (mod m), if such an integer exists.
pub fn mod_inverse(a: i64, m: i64) -> (r: Option<i64>)
    requires
        0 <= a,
        1 <= m,
    ensures
        match r {
            Some(x) => 0 <= x < m && ((a as int) * (x as int)) % (m as int) == 1int % (m as int),
            None => forall|x: int| #[trigger] (((a as int) * x) % (m as int)) != 1int % (m as int),
        },
{
    match crate::moduli::invert_mod(a, m) {
        Some(x) => {
            let t = x % m;
            let xx = if t < 0 {
                t + m
            } else {
                t
            };
            proof {
                lemma_trunc_mod_props(x as int, m as int);
                if t < 0 {
                    lemma_mod_add_multiples_vanish(t as int, m as int);
                }
                lemma_small_mod(xx as nat, m as nat);
                assert((xx as int) % (m as int) == (x as int) % (m as int));
                lemma_mul_mod_noop_general(a as int, xx as int, m as int);
                lemma_mul_mod_noop_general(a as int, x as int, m as int);
            }
            Some(xx)
        },
        None => None,
    }
}

} // verus!
