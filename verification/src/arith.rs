//! Shared number-theoretic specifications: divisibility and primality,
//! with the basic lemmas the other modules build on.

use vstd::prelude::*;
use vstd::arithmetic::div_mod::{
    lemma_fundamental_div_mod, lemma_mod_multiples_basic, lemma_mod_multiples_vanish,
    lemma_mul_mod_noop_general, lemma_small_mod,
};
use vstd::arithmetic::mul::{lemma_mul_is_associative, lemma_mul_inequality};

verus! {

/// `d` divides `n`.
pub open spec fn divides(d: int, n: int) -> bool {
    exists|k: int| n == #[trigger] (d * k)
}

/// `p` is a prime number: at least 2, with no divisor strictly between 1 and `p`.
pub open spec fn is_prime(p: int) -> bool {
    p >= 2 && forall|d: int| 1 < d < p ==> !divides(d, p)
}

/// For a positive divisor, divisibility coincides with a zero remainder.
pub proof fn lemma_divides_iff_mod_zero(d: int, n: int)
    requires
        d >= 1,
    ensures
        divides(d, n) <==> n % d == 0,
{
    if n % d == 0 {
        lemma_fundamental_div_mod(n, d);
        assert(n == d * (n / d));
    }
    if divides(d, n) {
        let k = choose|k: int| n == #[trigger] (d * k);
        lemma_mod_multiples_basic(k, d);
        assert(k * d == d * k);
    }
}

/// Divisibility is transitive.
pub proof fn lemma_divides_trans(a: int, b: int, c: int)
    requires
        divides(a, b),
        divides(b, c),
    ensures
        divides(a, c),
{
    let k1 = choose|k: int| b == #[trigger] (a * k);
    let k2 = choose|k: int| c == #[trigger] (b * k);
    lemma_mul_is_associative(a, k1, k2);
    assert(c == a * (k1 * k2));
}

/// Every number divides itself and any multiple of a divisor stays divisible.
pub proof fn lemma_divides_self(n: int)
    ensures
        divides(n, n),
{
    assert(n == n * 1);
}

/// A positive divisor of a positive number is no larger than that number.
pub proof fn lemma_divides_le(d: int, n: int)
    requires
        d >= 1,
        n >= 1,
        divides(d, n),
    ensures
        d <= n,
{
    let k = choose|k: int| n == #[trigger] (d * k);
    if k <= 0 {
        assert(d * k <= 0) by (nonlinear_arith)
            requires d >= 1 && k <= 0;
    } else {
        lemma_mul_inequality(1, k, d);
        assert(d * 1 == d);
        assert(d * k == k * d);
    }
}

/// Every integer at least 2 has a prime factor no larger than itself.
pub proof fn lemma_has_prime_factor(n: int)
    requires
        n >= 2,
    ensures
        exists|p: int| is_prime(p) && divides(p, n) && 2 <= p <= n,
    decreases n,
{
    if is_prime(n) {
        lemma_divides_self(n);
        assert(is_prime(n) && divides(n, n) && 2 <= n <= n);
    } else {
        let d = choose|d: int| 1 < d < n && divides(d, n);
        lemma_has_prime_factor(d);
        let p = choose|p: int| is_prime(p) && divides(p, d) && 2 <= p <= d;
        lemma_divides_trans(p, d, n);
        assert(is_prime(p) && divides(p, n) && 2 <= p <= n);
    }
}

/// A composite number has a prime factor strictly smaller than itself.
pub proof fn lemma_composite_has_smaller_prime_factor(n: int)
    requires
        n >= 2,
        !is_prime(n),
    ensures
        exists|p: int| is_prime(p) && divides(p, n) && 2 <= p < n,
{
    let d = choose|d: int| 1 < d < n && divides(d, n);
    lemma_has_prime_factor(d);
    let p = choose|p: int| is_prime(p) && divides(p, d) && 2 <= p <= d;
    lemma_divides_trans(p, d, n);
    assert(is_prime(p) && divides(p, n) && 2 <= p < n);
}

/// A number with no smaller prime factor is itself prime.
pub proof fn lemma_prime_if_no_smaller_prime_factor(n: int)
    requires
        n >= 2,
        forall|q: int| is_prime(q) && q < n ==> !divides(q, n),
    ensures
        is_prime(n),
{
    if !is_prime(n) {
        lemma_composite_has_smaller_prime_factor(n);
    }
}

/// Stepping from one multiple to the next.
pub proof fn lemma_divides_add(d: int, a: int)
    requires
        divides(d, a),
    ensures
        divides(d, a + d),
{
    let k = choose|k: int| a == #[trigger] (d * k);
    assert(a + d == d * (k + 1)) by (nonlinear_arith)
        requires a == d * k;
}

/// Two distinct multiples of `p` are at least `p` apart.
pub proof fn lemma_multiple_gap(p: int, a: int, b: int)
    requires
        p >= 1,
        divides(p, a),
        divides(p, b),
        a < b,
    ensures
        a + p <= b,
{
    let ka = choose|k: int| a == #[trigger] (p * k);
    let kb = choose|k: int| b == #[trigger] (p * k);
    assert(ka < kb) by (nonlinear_arith)
        requires p >= 1 && p * ka < p * kb;
    assert(p * ka + p <= p * kb) by (nonlinear_arith)
        requires p >= 1 && ka < kb;
}

/// Powers of a base at least 2 outgrow their exponent.
pub proof fn lemma_pow_ge_succ(p: int, k: nat)
    requires
        p >= 2,
    ensures
        vstd::arithmetic::power::pow(p, k) >= k + 1,
    decreases k,
{
    reveal(vstd::arithmetic::power::pow);
    if k > 0 {
        lemma_pow_ge_succ(p, (k - 1) as nat);
        let prev = vstd::arithmetic::power::pow(p, (k - 1) as nat);
        assert(p * prev >= k + 1) by (nonlinear_arith)
            requires p >= 2 && prev >= k && k >= 1;
    }
}

/// A divisor of `a` divides any multiple of `a`.
pub proof fn lemma_divides_scale(d: int, a: int, q: int)
    requires
        divides(d, a),
    ensures
        divides(d, a * q),
{
    let k = choose|k: int| a == #[trigger] (d * k);
    assert(a * q == d * (k * q)) by (nonlinear_arith)
        requires a == d * k;
}

/// A common divisor divides the sum.
pub proof fn lemma_divides_sum(d: int, a: int, b: int)
    requires
        divides(d, a),
        divides(d, b),
    ensures
        divides(d, a + b),
{
    let k1 = choose|k: int| a == #[trigger] (d * k);
    let k2 = choose|k: int| b == #[trigger] (d * k);
    assert(a + b == d * (k1 + k2)) by (nonlinear_arith)
        requires a == d * k1 && b == d * k2;
}

/// A common divisor divides the difference.
pub proof fn lemma_divides_diff(d: int, a: int, b: int)
    requires
        divides(d, a),
        divides(d, b),
    ensures
        divides(d, a - b),
{
    let k1 = choose|k: int| a == #[trigger] (d * k);
    let k2 = choose|k: int| b == #[trigger] (d * k);
    assert(a - b == d * (k1 - k2)) by (nonlinear_arith)
        requires a == d * k1 && b == d * k2;
}

/// The extended Euclidean identity: returns `(x, y, g)` with
/// `a*x + b*y == g`, where `g` is a positive common divisor of `a` and `b`
/// that every common divisor divides.
pub proof fn lemma_bezout_identity(a: int, b: int) -> (r: (int, int, int))
    requires
        a >= 1,
        b >= 1,
    ensures
        a * r.0 + b * r.1 == r.2,
        r.2 >= 1,
        divides(r.2, a),
        divides(r.2, b),
        forall|c: int| c >= 1 && divides(c, a) && #[trigger] divides(c, b) ==> divides(c, r.2),
    decreases a,
{
    lemma_fundamental_div_mod(b, a);
    let q = b / a;
    let rem = b % a;
    if rem == 0 {
        lemma_divides_self(a);
        assert(b == a * q);
        assert(a * 1 + b * 0 == a);
        (1, 0, a)
    } else {
        let (x1, y1, g) = lemma_bezout_identity(rem, a);
        // g == rem*x1 + a*y1 and b == a*q + rem, so g == a*(y1 - q*x1) + b*x1
        let x = y1 - q * x1;
        let y = x1;
        assert(a * x + b * y == rem * x1 + a * y1) by (nonlinear_arith)
            requires b == a * q + rem && x == y1 - q * x1 && y == x1;
        assert(divides(g, b)) by {
            lemma_divides_scale(g, a, q);
            lemma_divides_sum(g, a * q, rem);
        }
        assert forall|c: int| c >= 1 && divides(c, a) && #[trigger] divides(c, b) implies divides(
            c,
            g,
        ) by {
            lemma_divides_scale(c, a, q);
            lemma_divides_diff(c, b, a * q);
            assert(divides(c, rem));
        }
        (x, y, g)
    }
}

/// A prime not dividing `d` is coprime to it: some combination makes 1.
pub proof fn lemma_coprime_unit(p: int, d: int) -> (r: (int, int))
    requires
        is_prime(p),
        d >= 1,
        !divides(p, d),
    ensures
        d * r.0 + p * r.1 == 1,
{
    let (x, y, g) = lemma_bezout_identity(d, p);
    lemma_divides_le(g, p);
    if 1 < g < p {
        assert(false);
    }
    if g == p {
        assert(divides(p, d));
        assert(false);
    }
    (x, y)
}

/// Gauss's lemma: a number coprime to `p` that divides `p*z` divides `z`.
pub proof fn lemma_coprime_divides_cancel(d: int, p: int, x: int, y: int, z: int)
    requires
        d * x + p * y == 1,
        divides(d, p * z),
    ensures
        divides(d, z),
{
    let w = choose|k: int| p * z == #[trigger] (d * k);
    assert(z == d * (x * z + w * y)) by (nonlinear_arith)
        requires d * x + p * y == 1 && p * z == d * w;
}

/// A number coprime to the prime `p` that divides `pow(p,t) * m` divides `m`.
pub proof fn lemma_coprime_divides_pow_cancel(d: int, p: int, t: nat, m: int)
    requires
        is_prime(p),
        d >= 1,
        !divides(p, d),
        divides(d, vstd::arithmetic::power::pow(p, t) * m),
    ensures
        divides(d, m),
    decreases t,
{
    reveal(vstd::arithmetic::power::pow);
    if t == 0 {
        assert(vstd::arithmetic::power::pow(p, t) * m == m);
    } else {
        let rest = vstd::arithmetic::power::pow(p, (t - 1) as nat);
        assert(vstd::arithmetic::power::pow(p, t) * m == p * (rest * m)) by (nonlinear_arith)
            requires vstd::arithmetic::power::pow(p, t) == p * rest;
        let (x, y) = lemma_coprime_unit(p, d);
        lemma_coprime_divides_cancel(d, p, x, y, rest * m);
        lemma_coprime_divides_pow_cancel(d, p, (t - 1) as nat, m);
    }
}

/// Euclid's lemma: a prime dividing a product divides one of the factors.
pub proof fn lemma_euclid(p: int, a: int, b: int)
    requires
        is_prime(p),
        a >= 1,
        divides(p, a * b),
    ensures
        divides(p, a) || divides(p, b),
{
    if !divides(p, a) {
        let (x, y) = lemma_coprime_unit(p, a);
        lemma_divides_scale(p, a * b, x);
        lemma_divides_self(p);
        lemma_divides_scale(p, p, y * b);
        lemma_divides_sum(p, (a * b) * x, p * (y * b));
        assert((a * b) * x + p * (y * b) == b) by (nonlinear_arith)
            requires a * x + p * y == 1;
    }
}

/// Writing a positive number as a prime power times a coprime cofactor.
pub proof fn lemma_extract_prime_power(p: int, e: int) -> (r: (nat, int))
    requires
        is_prime(p),
        e >= 1,
    ensures
        e == vstd::arithmetic::power::pow(p, r.0) * r.1,
        r.1 >= 1,
        !divides(p, r.1),
    decreases e,
{
    reveal(vstd::arithmetic::power::pow);
    lemma_divides_iff_mod_zero(p, e);
    if e % p == 0 {
        lemma_fundamental_div_mod(e, p);
        let e1 = e / p;
        assert(e1 >= 1) by (nonlinear_arith)
            requires e == p * e1 && e >= 1 && p >= 2;
        assert(e1 < e) by (nonlinear_arith)
            requires e == p * e1 && e1 >= 1 && p >= 2;
        let (j, d) = lemma_extract_prime_power(p, e1);
        assert(e == vstd::arithmetic::power::pow(p, (j + 1) as nat) * d) by (nonlinear_arith)
            requires
                e == p * e1,
                e1 == vstd::arithmetic::power::pow(p, j) * d,
                vstd::arithmetic::power::pow(p, (j + 1) as nat) == p * vstd::arithmetic::power::pow(
                    p,
                    j,
                ),
        ;
        ((j + 1) as nat, d)
    } else {
        assert(e == vstd::arithmetic::power::pow(p, 0nat) * e);
        (0nat, e)
    }
}

/// Cancelling a positive common factor.
pub proof fn lemma_mul_cancel(a: int, b: int, c: int)
    requires
        c >= 1,
        a * c == b * c,
    ensures
        a == b,
{
    assert(a == b) by (nonlinear_arith)
        requires c >= 1 && a * c == b * c;
}

/// The remainder as Rust computes it on signed integers: the sign follows
/// the dividend.
pub open spec fn trunc_mod(a: int, m: int) -> int {
    if a >= 0 {
        a % m
    } else {
        -((-a) % m)
    }
}

/// The truncated remainder stays within `(-m, m)` and is congruent to the
/// dividend.
pub proof fn lemma_trunc_mod_props(a: int, m: int)
    requires
        m >= 1,
    ensures
        -m < trunc_mod(a, m) < m,
        trunc_mod(a, m) % m == a % m,
        a >= 0 ==> trunc_mod(a, m) == a % m,
{
    if a >= 0 {
        lemma_small_mod((a % m) as nat, m as nat);
    } else {
        let s = (-a) % m;
        lemma_fundamental_div_mod(-a, m);
        assert(a == m * (-((-a) / m)) + (-s)) by (nonlinear_arith)
            requires -a == m * ((-a) / m) + s;
        lemma_mod_multiples_vanish(-((-a) / m), -s, m);
    }
}

/// Multiplying a residue by its modular inverse gives the residue class back.
pub proof fn lemma_div_congruence(v: int, o: int, i: int, t: int, m: int)
    requires
        m >= 1,
        0 <= v < m,
        (o * i) % m == 1int % m,
        t % m == (v * i) % m,
    ensures
        (t * o) % m == v % m,
{
    lemma_mul_mod_noop_general(t, o, m);
    lemma_mul_mod_noop_general(v * i, o, m);
    assert((t * o) % m == ((v * i) * o) % m);
    assert((v * i) * o == v * (o * i)) by (nonlinear_arith);
    lemma_mul_mod_noop_general(v, o * i, m);
    assert((v * (o * i)) % m == (v * (1int % m)) % m);
    if m == 1 {
        lemma_mod_multiples_basic(v, 1);
        lemma_mod_multiples_basic(v * (1int % 1), 1);
    } else {
        lemma_small_mod(1nat, m as nat);
        lemma_small_mod(v as nat, m as nat);
    }
}

/// One step of binary exponentiation modulo `m`: halving the exponent after
/// squaring the base, and folding one factor into the accumulator when the
/// exponent is odd, preserves the accumulated power.
pub proof fn lemma_pow_loop_step(acc: int, b: int, accn: int, bn: int, e: nat, m: int, goal: int)
    requires
        m >= 1,
        e >= 1,
        (acc * vstd::arithmetic::power::pow(b, e)) % m == goal,
        bn % m == (b * b) % m,
        e % 2 == 0 ==> accn % m == acc % m,
        e % 2 == 1 ==> accn % m == (acc * b) % m,
    ensures
        (accn * vstd::arithmetic::power::pow(bn, e / 2)) % m == goal,
{
    let t = e / 2;
    let powbn = vstd::arithmetic::power::pow(bn, t);
    let powb2 = vstd::arithmetic::power::pow(b * b, t);
    let powb2t = vstd::arithmetic::power::pow(b, 2 * t);
    vstd::arithmetic::power::lemma_pow_mod_noop(bn, t, m);
    vstd::arithmetic::power::lemma_pow_mod_noop(b * b, t, m);
    assert(powbn % m == powb2 % m);
    vstd::arithmetic::power::lemma_pow_multiplies(b, 2nat, t);
    vstd::arithmetic::power::lemma_square_is_pow2(b);
    assert(powb2 == powb2t);
    lemma_mul_mod_noop_general(accn, powbn, m);
    lemma_mul_mod_noop_general(accn, powb2t, m);
    assert((accn * powbn) % m == (accn * powb2t) % m);
    if e % 2 == 0 {
        assert(2 * t == e);
        lemma_mul_mod_noop_general(acc, powb2t, m);
        lemma_mul_mod_noop_general(accn, powb2t, m);
        assert((accn * powb2t) % m == (acc * powb2t) % m);
    } else {
        assert(2 * t + 1 == e);
        reveal(vstd::arithmetic::power::pow);
        assert(vstd::arithmetic::power::pow(b, e) == b * powb2t);
        lemma_mul_mod_noop_general(acc * b, powb2t, m);
        lemma_mul_mod_noop_general(accn, powb2t, m);
        assert((accn * powb2t) % m == ((acc * b) * powb2t) % m);
        assert((acc * b) * powb2t == acc * (b * powb2t)) by (nonlinear_arith);
    }
}

} // verus!
