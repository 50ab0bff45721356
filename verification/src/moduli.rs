//! Modular arithmetic

use vstd::prelude::*;
use vstd::arithmetic::div_mod::{
    lemma_fundamental_div_mod, lemma_mod_multiples_vanish, lemma_small_mod,
};
use crate::arith::{
    divides, lemma_divides_diff, lemma_divides_le, lemma_divides_scale, lemma_divides_self,
    lemma_divides_sum,
};

verus! {

/// Every common divisor of `a` and `b` divides `g`, which divides both:
/// the divisibility characterization of the greatest common divisor.
pub open spec fn is_gcd(a: int, b: int, g: int) -> bool {
    &&& divides(g, a)
    &&& divides(g, b)
    &&& forall|c: int| c >= 1 && divides(c, a) && #[trigger] divides(c, b) ==> divides(c, g)
}

/// For given non-negative integers `a` and `b` returns three integers
/// `(x, y, g)` that satisfy ax + by = g and g = gcd(a,b).
///
/// The coefficients stay small: |x| never exceeds max(b,1) and |y| never
/// exceeds max(a,1), which keeps every intermediate product in range.
pub fn bezout(a: i64, b: i64) -> (r: (i64, i64, i64))
    requires
        0 <= a,
        0 <= b,
    ensures
        (a as int) * (r.0 as int) + (b as int) * (r.1 as int) == r.2 as int,
        r.2 >= 0,
        a > 0 || b > 0 ==> r.2 >= 1,
        is_gcd(a as int, b as int, r.2 as int),
        -(if b >= 1 { b as int } else { 1 }) <= r.0 as int <= (if b >= 1 { b as int } else { 1 }),
        -(if a >= 1 { a as int } else { 1 }) <= r.1 as int <= (if a >= 1 { a as int } else { 1 }),
        a == 0 ==> r.0 == 0 && r.1 == 1 && r.2 == b,
    decreases a as int,
{
    if a == 0 {
        proof {
            lemma_divides_self(b as int);
            assert(0int == (b as int) * 0);
            assert(divides(b as int, 0int));
        }
        return (0, 1, b);
    }
    if b < a {
        let (x, y, g) = bezout(b, a);
        return (y, x, g);
    }
    let d = b / a;
    let rem = b % a;
    proof {
        lemma_fundamental_div_mod(b as int, a as int);
        assert(rem < a);
        assert(d >= 1) by (nonlinear_arith)
            requires
                b as int == (a as int) * (d as int) + (rem as int),
                0 <= rem < a,
                b >= a,
                a >= 1,
        ;
        assert(d as int <= b as int) by (nonlinear_arith)
            requires
                b as int == (a as int) * (d as int) + (rem as int),
                rem >= 0,
                d >= 1,
                a >= 1,
        ;
    }
    let (x1, y1, g) = bezout(rem, a);
    proof {
        assert((d as int) * (a as int) <= b as int) by (nonlinear_arith)
            requires
                b as int == (a as int) * (d as int) + (rem as int),
                rem >= 0,
        ;
        assert(-((d as int) * (a as int)) <= (d as int) * (x1 as int) <= (d as int) * (a as int))
            by (nonlinear_arith)
            requires
                d >= 1,
                -(a as int) <= (x1 as int) <= a as int,
        ;
        // |y1 - d*x1| <= rem + d*a <= b
        if rem == 0 {
            assert(x1 == 0 && y1 == 1);
            assert((y1 as int) - (d as int) * (x1 as int) == 1) by (nonlinear_arith)
                requires x1 == 0 && y1 == 1;
        } else {
            assert(b != a) by {
                vstd::arithmetic::div_mod::lemma_mod_self_0(a as int);
            }
            assert(-(b as int) <= (y1 as int) - (d as int) * (x1 as int) <= b as int)
                by (nonlinear_arith)
                requires
                    rem >= 1,
                    -(rem as int) <= (y1 as int) <= rem as int,
                    rem < a,
                    a >= 1,
                    b > a,
                    b as int == (a as int) * (d as int) + (rem as int),
                    -((d as int) * (a as int)) <= (d as int) * (x1 as int) <= (d as int) * (a as int),
                    (d as int) * (a as int) <= b as int,
            ;
        }
    }
    let x = y1 - d * x1;
    let y = x1;
    proof {
        // the combination: g == rem*x1 + a*y1 and b == a*d + rem
        assert((a as int) * (x as int) + (b as int) * (y as int) == (rem as int) * (x1 as int) + (
        a as int) * (y1 as int)) by (nonlinear_arith)
            requires
                b as int == (a as int) * (d as int) + (rem as int),
                x as int == (y1 as int) - (d as int) * (x1 as int),
                y == x1,
        ;
        // g divides b as well
        lemma_divides_scale(g as int, a as int, d as int);
        lemma_divides_sum(g as int, (a as int) * (d as int), rem as int);
        assert(divides(g as int, b as int));
        assert forall|c: int| c >= 1 && divides(c, a as int) && #[trigger] divides(c, b as int)
            implies divides(c, g as int) by {
            lemma_divides_scale(c, a as int, d as int);
            lemma_divides_diff(c, b as int, (a as int) * (d as int));
            assert(divides(c, rem as int));
        }
    }
    (x, y, g)
}

/// For integers `a` and `m` computes an integer `x` such that ax = 1 (mod m),
/// if such an integer exists; `x` is not normalized into `[0, m)`.
pub fn invert_mod(a: i64, m: i64) -> (r: Option<i64>)
    requires
        0 <= a,
        1 <= m,
    ensures
        match r {
            Some(x) => ((a as int) * (x as int)) % (m as int) == 1int % (m as int) && -(m as int)
                <= x as int <= m as int,
            None => forall|x: int| #[trigger] (((a as int) * x) % (m as int)) != 1int % (m as int),
        },
{
    let (x, _y, g) = bezout(a, m);
    if g == 1 {
        proof {
            lemma_inverse_from_bezout(a as int, m as int, x as int, _y as int);
        }
        Some(x)
    } else {
        proof {
            assert(g >= 2);
            assert forall|xx: int| #[trigger] (((a as int) * xx) % (m as int)) != 1int % (m as int) by {
                lemma_no_inverse_when_gcd_large(a as int, m as int, g as int, xx);
            }
        }
        None
    }
}

/// A Bezout combination equal to 1 yields a modular inverse.
proof fn lemma_inverse_from_bezout(a: int, m: int, x: int, y: int)
    requires
        m >= 1,
        a * x + m * y == 1,
    ensures
        (a * x) % m == 1int % m,
{
    lemma_mod_multiples_vanish(y, a * x, m);
    assert(m * y + a * x == 1);
}

/// With a common divisor above 1, no combination a*x can be 1 modulo m.
proof fn lemma_no_inverse_when_gcd_large(a: int, m: int, g: int, x: int)
    requires
        m >= 1,
        g >= 2,
        divides(g, a),
        divides(g, m),
    ensures
        (a * x) % m != 1int % m,
{
    if m == 1 {
        lemma_divides_le(g, m);
    } else if (a * x) % m == 1int % m {
        lemma_small_mod(1nat, m as nat);
        assert(1int % m == 1);
        lemma_fundamental_div_mod(a * x, m);
        assert(a * x == m * ((a * x) / m) + 1);
        lemma_divides_scale(g, a, x);
        lemma_divides_scale(g, m, (a * x) / m);
        lemma_divides_diff(g, a * x, m * ((a * x) / m));
        assert(divides(g, 1));
        lemma_divides_le(g, 1);
    }
}

} // verus!
