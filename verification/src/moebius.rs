//! Functions related to Moebius inversion: recovering pointwise values of an
//! arithmetic function from its summatory function, with the divide-at-sqrt
//! two-array technique.
//!
//! Arithmetic is done in wrapping 64-bit integers; the result equals the
//! mathematical recurrence reduced into the `i64` range modulo 2^64, and so is
//! exact whenever no intermediate value overflows.

use vstd::prelude::*;
use vstd::arithmetic::div_mod::{
    lemma_div_is_ordered_by_denominator, lemma_div_pos_is_pos, lemma_fundamental_div_mod,
    lemma_mod_bound, lemma_mod_multiples_vanish, lemma_small_mod,
};

verus! {

/// The representative of `x` modulo 2^64 in the range of `i64`.
pub open spec fn wrap64(x: int) -> int {
    ((x + 0x8000_0000_0000_0000) % 0x1_0000_0000_0000_0000) - 0x8000_0000_0000_0000
}

/// `s` is the integer square root of `n`.
pub open spec fn is_isqrt(s: int, n: int) -> bool {
    0 <= s && s * s <= n < (s + 1) * (s + 1)
}

/// The summatory values, read from the two tables: `gl[x]` holds the value
/// at a small argument `x`, `gh[d]` the value at the large argument `n/d`.
pub open spec fn g_at(gl: Seq<i64>, gh: Seq<i64>, n: int, x: int) -> int {
    if x < 1 {
        0
    } else if x < gl.len() {
        gl[x] as int
    } else {
        gh[n / x] as int
    }
}

/// The value recovered at `m`: the summatory value at `m`, less the one at
/// `m/2`, less the recovered values at `m/k` for every odd `k` from 3 to `m`.
pub open spec fn f_rec(gl: Seq<i64>, gh: Seq<i64>, n: int, m: int) -> int
    decreases m, m + 2,
{
    if m < 1 {
        0
    } else {
        g_at(gl, gh, n, m) - g_at(gl, gh, n, m / 2) - odd_sum_from(gl, gh, n, m, 3)
    }
}

/// The sum of the recovered values at `m/j`, over odd `j` from `k` to `m`.
pub open spec fn odd_sum_from(gl: Seq<i64>, gh: Seq<i64>, n: int, m: int, k: int) -> int
    decreases m, m + 2 - k,
    via odd_sum_from_decreases
{
    if m < 1 || k < 3 || k > m {
        0
    } else {
        f_rec(gl, gh, n, m / k) + odd_sum_from(gl, gh, n, m, k + 2)
    }
}

#[via_fn]
proof fn odd_sum_from_decreases(gl: Seq<i64>, gh: Seq<i64>, n: int, m: int, k: int) {
    if !(m < 1 || k < 3 || k > m) {
        vstd::arithmetic::div_mod::lemma_div_decreases(m, k);
    }
}

/// `wrap64` fixes values already in the `i64` range.
proof fn lemma_wrap_id(x: int)
    requires
        -0x8000_0000_0000_0000 <= x < 0x8000_0000_0000_0000,
    ensures
        wrap64(x) == x,
{
    lemma_small_mod((x + 0x8000_0000_0000_0000) as nat, 0x1_0000_0000_0000_0000nat);
}

/// `wrap64` is blind to multiples of 2^64.
proof fn lemma_wrap_vanish(x: int, c: int)
    ensures
        wrap64(x + 0x1_0000_0000_0000_0000 * c) == wrap64(x),
{
    lemma_mod_multiples_vanish(c, x + 0x8000_0000_0000_0000, 0x1_0000_0000_0000_0000);
}

/// Every value is its wrapped representative plus a multiple of 2^64,
/// and the representative is in range.
proof fn lemma_wrap_decompose(x: int)
    ensures
        -0x8000_0000_0000_0000 <= wrap64(x) < 0x8000_0000_0000_0000,
        exists|c: int| wrap64(x) == x + #[trigger] (0x1_0000_0000_0000_0000 * c),
{
    lemma_fundamental_div_mod(x + 0x8000_0000_0000_0000, 0x1_0000_0000_0000_0000);
    lemma_mod_bound(x + 0x8000_0000_0000_0000, 0x1_0000_0000_0000_0000);
    let q = (x + 0x8000_0000_0000_0000) / 0x1_0000_0000_0000_0000;
    assert(wrap64(x) == x + 0x1_0000_0000_0000_0000 * (-q));
}

/// Wrapping before a subtraction does not change the wrapped difference.
proof fn lemma_wrap_sub_hom(a: int, b: int)
    ensures
        wrap64(wrap64(a) - wrap64(b)) == wrap64(a - b),
{
    lemma_wrap_decompose(a);
    lemma_wrap_decompose(b);
    let ca = choose|c: int| wrap64(a) == a + #[trigger] (0x1_0000_0000_0000_0000 * c);
    let cb = choose|c: int| wrap64(b) == b + #[trigger] (0x1_0000_0000_0000_0000 * c);
    assert(wrap64(a) - wrap64(b) == (a - b) + 0x1_0000_0000_0000_0000 * (ca - cb))
        by (nonlinear_arith)
        requires
            wrap64(a) == a + 0x1_0000_0000_0000_0000 * ca,
            wrap64(b) == b + 0x1_0000_0000_0000_0000 * cb,
    ;
    lemma_wrap_vanish(a - b, ca - cb);
}

/// Wrapping before a multiplication does not change the wrapped product.
proof fn lemma_wrap_mul_hom(a: int, b: int)
    ensures
        wrap64(wrap64(a) * wrap64(b)) == wrap64(a * b),
{
    lemma_wrap_decompose(a);
    lemma_wrap_decompose(b);
    let ca = choose|c: int| wrap64(a) == a + #[trigger] (0x1_0000_0000_0000_0000 * c);
    let cb = choose|c: int| wrap64(b) == b + #[trigger] (0x1_0000_0000_0000_0000 * c);
    assert(wrap64(a) * wrap64(b) == a * b + 0x1_0000_0000_0000_0000 * (ca * b + cb * a
        + 0x1_0000_0000_0000_0000 * (ca * cb))) by (nonlinear_arith)
        requires
            wrap64(a) == a + 0x1_0000_0000_0000_0000 * ca,
            wrap64(b) == b + 0x1_0000_0000_0000_0000 * cb,
    ;
    lemma_wrap_vanish(a * b, ca * b + cb * a + 0x1_0000_0000_0000_0000 * (ca * cb));
}

/// The wrapping subtraction of the standard library computes `wrap64` of the
/// mathematical difference.
proof fn lemma_wrapping_sub(a: i64, b: i64)
    ensures
        vstd::wrapping::i64_specs::wrapping_sub(a, b) as int == wrap64(a - b),
{
    if a - b > i64::MAX {
        lemma_wrap_vanish(a - b - 0x1_0000_0000_0000_0000, 1);
        lemma_wrap_id(a - b - 0x1_0000_0000_0000_0000);
    } else if a - b < i64::MIN {
        lemma_wrap_vanish(a - b, 1);
        lemma_wrap_id(a - b + 0x1_0000_0000_0000_0000);
    } else {
        lemma_wrap_id(a - b);
    }
}

/// The wrapping multiplication of the standard library computes `wrap64` of
/// the mathematical product.
proof fn lemma_wrapping_mul(a: i64, b: i64)
    ensures
        vstd::wrapping::i64_specs::wrapping_mul(a, b) as int == wrap64((a as int) * (b as int)),
{
    let t = (a as int) * (b as int);
    let u = t % 0x1_0000_0000_0000_0000;
    lemma_mod_bound(t, 0x1_0000_0000_0000_0000);
    lemma_fundamental_div_mod(t, 0x1_0000_0000_0000_0000);
    lemma_wrap_vanish(u, t / 0x1_0000_0000_0000_0000);
    assert(u + 0x1_0000_0000_0000_0000 * (t / 0x1_0000_0000_0000_0000) == t);
    assert(wrap64(t) == wrap64(u));
    if u > i64::MAX {
        lemma_wrap_vanish(u - 0x1_0000_0000_0000_0000, 1);
        lemma_wrap_id(u - 0x1_0000_0000_0000_0000);
    } else {
        lemma_wrap_id(u);
    }
}

/// Consecutive odd arguments with the same quotient can be summed as one
/// block: the tail at `k` is the tail at `nextk` plus the block's worth.
proof fn lemma_tail_group(gl: Seq<i64>, gh: Seq<i64>, n: int, m: int, k: int, nextk: int)
    requires
        m >= 1,
        3 <= k <= m,
        k % 2 == 1,
        nextk % 2 == 1,
        k + 2 <= nextk,
        nextk <= m / (m / k) + 2,
    ensures
        odd_sum_from(gl, gh, n, m, k) == ((nextk - k) / 2) * f_rec(gl, gh, n, m / k)
            + odd_sum_from(gl, gh, n, m, nextk),
    decreases nextk - k,
{
    lemma_div_pos_is_pos(m, k);
    if nextk == k + 2 {
        assert(((nextk - k) / 2) * f_rec(gl, gh, n, m / k) == 1 * f_rec(gl, gh, n, m / k));
    } else {
        lemma_quot_bound(m, k);
        assert(k + 2 <= m / (m / k));
        lemma_quot_stable(m, k, k + 2);
        assert(m / (m / k) <= m) by {
            lemma_div_pos_is_pos(m, m / k);
            vstd::arithmetic::div_mod::lemma_div_nonincreasing(m, m / k);
        }
        lemma_tail_group(gl, gh, n, m, k + 2, nextk);
        let blocks = (nextk - k - 2) / 2;
        assert((nextk - k) / 2 == blocks + 1);
        assert((blocks + 1) * f_rec(gl, gh, n, m / k) == blocks * f_rec(gl, gh, n, m / k) + f_rec(
            gl,
            gh,
            n,
            m / k,
        )) by (nonlinear_arith);
    }
}

/// The quotient `m / j` does not change while `j` stays within the block
/// `[k, m / (m / k)]`.
proof fn lemma_quot_stable(m: int, k: int, j: int)
    requires
        1 <= k <= m,
        k <= j,
        j <= m / (m / k),
    ensures
        m / j == m / k,
{
    let q = m / k;
    lemma_div_pos_is_pos(m, k);
    assert(q >= 1) by {
        if q < 1 {
            lemma_fundamental_div_mod(m, k);
            assert(m == k * q + m % k);
            lemma_mod_bound(m, k);
            assert(k * 0 == 0) by (nonlinear_arith);
            assert(m < k) by (nonlinear_arith)
                requires m == k * q + m % k && q <= 0 && m % k < k && k >= 1;
        }
    }
    lemma_div_is_ordered_by_denominator(m, k, j);
    // j * q <= m, hence q <= m / j
    lemma_fundamental_div_mod(m, q);
    lemma_mod_bound(m, q);
    assert(j * q <= (m / q) * q + 0) by (nonlinear_arith)
        requires j <= m / q && q >= 1;
    assert((m / q) * q <= m) by (nonlinear_arith)
        requires m == q * (m / q) + m % q && m % q >= 0;
    lemma_fundamental_div_mod(m, j);
    lemma_mod_bound(m, j);
    assert(q <= m / j) by (nonlinear_arith)
        requires
            j * q <= m,
            m == j * (m / j) + m % j,
            0 <= m % j < j,
            j >= 1,
            q >= 1,
    ;
}

/// The block end `m / (m / k)` lies at or beyond `k`.
proof fn lemma_quot_bound(m: int, k: int)
    requires
        1 <= k <= m,
    ensures
        k <= m / (m / k),
        m / k >= 1,
{
    let q = m / k;
    lemma_div_pos_is_pos(m, k);
    assert(q >= 1) by {
        if q < 1 {
            lemma_fundamental_div_mod(m, k);
            lemma_mod_bound(m, k);
            assert(m < k) by (nonlinear_arith)
                requires m == k * q + m % k && q <= 0 && m % k < k && k >= 1;
        }
    }
    lemma_fundamental_div_mod(m, k);
    lemma_mod_bound(m, k);
    assert(k * q <= m) by (nonlinear_arith)
        requires m == k * q + m % k && m % k >= 0;
    lemma_fundamental_div_mod(m, q);
    lemma_mod_bound(m, q);
    assert(k <= m / q) by (nonlinear_arith)
        requires
            k * q <= m,
            m == q * (m / q) + m % q,
            0 <= m % q < q,
            q >= 1,
            k >= 1,
    ;
}

/// Oring in the lowest bit rounds up to the nearest odd number.
proof fn lemma_or_one(x: usize)
    ensures
        x % 2 == 0 ==> (x | 1) == x + 1,
        x % 2 == 1 ==> (x | 1) == x,
        (x | 1) % 2 == 1,
{
    assert(x % 2 == 0 ==> (x | 1) == x + 1) by (bit_vector);
    assert(x % 2 == 1 ==> (x | 1) == x) by (bit_vector);
    assert((x | 1) % 2 == 1) by (bit_vector);
}

/// A quotient by anything past the square root falls at or under the
/// square root.
proof fn lemma_quot_under_sqrt(n: int, sq: int, x: int)
    requires
        n >= 1,
        is_isqrt(sq, n),
        x > sq,
    ensures
        n / x <= sq,
{
    lemma_div_is_ordered_by_denominator(n, sq + 1, x);
    if n / (sq + 1) > sq {
        lemma_fundamental_div_mod(n, sq + 1);
        lemma_mod_bound(n, sq + 1);
        assert(n >= (sq + 1) * (sq + 1)) by (nonlinear_arith)
            requires
                n == (sq + 1) * (n / (sq + 1)) + n % (sq + 1),
                n % (sq + 1) >= 0,
                n / (sq + 1) >= sq + 1,
                sq + 1 >= 1,
        ;
    }
}

/// Odd factors give an odd product.
proof fn lemma_odd_mul(a: int, b: int)
    requires
        a % 2 == 1,
        b % 2 == 1,
        a >= 1,
        b >= 1,
    ensures
        (a * b) % 2 == 1,
{
    lemma_fundamental_div_mod(a, 2);
    lemma_fundamental_div_mod(b, 2);
    let ha = a / 2;
    let hb = b / 2;
    assert(a * b == (2 * ha * hb + ha + hb) * 2 + 1) by (nonlinear_arith)
        requires a == 2 * ha + 1 && b == 2 * hb + 1;
    vstd::arithmetic::div_mod::lemma_fundamental_div_mod_converse(
        a * b,
        2,
        2 * ha * hb + ha + hb,
        1,
    );
}

/// One grouped step of the inner fold: subtracting the block's worth moves
/// the tail pointer from `k` to `nextk`.
proof fn lemma_fold_step(
    gl: Seq<i64>,
    gh: Seq<i64>,
    n: int,
    m: int,
    k: int,
    nextk: int,
    target: int,
    acc: int,
    val: int,
    accn: int,
)
    requires
        1 <= m <= 0x7fff_ffff_ffff_ffff,
        3 <= k <= m,
        k % 2 == 1,
        nextk % 2 == 1,
        k + 2 <= nextk,
        nextk <= m / (m / k) + 2,
        acc == wrap64(target + odd_sum_from(gl, gh, n, m, k)),
        val == wrap64(f_rec(gl, gh, n, m / k)),
        accn == wrap64(acc - wrap64(((nextk - k) / 2) * val)),
    ensures
        accn == wrap64(target + odd_sum_from(gl, gh, n, m, nextk)),
{
    let cnt = (nextk - k) / 2;
    let f = f_rec(gl, gh, n, m / k);
    lemma_tail_group(gl, gh, n, m, k, nextk);
    assert(odd_sum_from(gl, gh, n, m, k) == cnt * f + odd_sum_from(gl, gh, n, m, nextk));
    assert(0 <= cnt <= m) by {
        assert(nextk <= m / (m / k) + 2);
        lemma_quot_bound(m, k);
        lemma_div_pos_is_pos(m, m / k);
        vstd::arithmetic::div_mod::lemma_div_nonincreasing(m, m / k);
    }
    lemma_wrap_id(cnt);
    lemma_wrap_mul_hom(cnt, f);
    assert(wrap64(cnt * val) == wrap64(cnt * f));
    lemma_wrap_sub_hom(target + odd_sum_from(gl, gh, n, m, k), cnt * f);
    assert(target + odd_sum_from(gl, gh, n, m, k) - cnt * f == target + odd_sum_from(
        gl,
        gh,
        n,
        m,
        nextk,
    ));
}

/// The integer square root, by bisection.
pub fn isqrt(n: usize) -> (r: usize)
    ensures
        is_isqrt(r as int, n as int),
{
    let nn = n as u64;
    let mut lo: u64 = 0;
    let mut hi: u64 = if nn >= 0xFFFF_FFFF {
        0x1_0000_0000
    } else {
        nn + 1
    };
    proof {
        if nn >= 0xFFFF_FFFF {
            assert((nn as int) < (hi as int) * (hi as int)) by (nonlinear_arith)
                requires hi as int == 0x1_0000_0000 && nn <= u64::MAX;
        } else {
            assert((nn as int) < (hi as int) * (hi as int)) by (nonlinear_arith)
                requires hi as int == nn + 1;
        }
    }
    while lo + 1 < hi
        invariant
            lo < hi,
            hi <= 0x1_0000_0000,
            (lo as int) * (lo as int) <= nn as int,
            (nn as int) < (hi as int) * (hi as int),
            nn == n,
        decreases hi - lo,
    {
        let mid = lo + (hi - lo) / 2;
        proof {
            assert((mid as int) * (mid as int) <= 0xFFFF_FFFFi64 * 0xFFFF_FFFFi64)
                by (nonlinear_arith)
                requires 0 <= (mid as int) && (mid as int) <= 0xFFFF_FFFF;
        }
        if mid * mid <= nn {
            lo = mid;
        } else {
            hi = mid;
        }
    }
    proof {
        assert(hi == lo + 1);
        assert(lo <= nn) by (nonlinear_arith)
            requires (lo as int) * (lo as int) <= nn as int && lo >= 0;
    }
    lo as usize
}

/// The summatory sum of `f` at `mm`, over `k` from `k0` to `mm`:
/// the sum of `f(mm/k)`.
pub open spec fn sum_from(f: spec_fn(int) -> int, mm: int, k: int) -> int
    decreases mm + 1 - k,
{
    if k < 1 || k > mm {
        0
    } else {
        f(mm / k) + sum_from(f, mm, k + 1)
    }
}

/// The summatory function of `f`: the sum of `f(mm/k)` over `k` from 1 to `mm`.
pub open spec fn summatory(f: spec_fn(int) -> int, mm: int) -> int {
    sum_from(f, mm, 1)
}

/// The odd part of the summatory sum, over odd `k` from `k0` up.
spec fn odd_from(f: spec_fn(int) -> int, mm: int, k: int) -> int
    decreases mm + 2 - k,
{
    if k < 1 || k > mm {
        0
    } else {
        f(mm / k) + odd_from(f, mm, k + 2)
    }
}

/// The even part of the summatory sum, over even `e` from `e0` up.
spec fn even_from(f: spec_fn(int) -> int, mm: int, e: int) -> int
    decreases mm + 2 - e,
{
    if e < 1 || e > mm {
        0
    } else {
        f(mm / e) + even_from(f, mm, e + 2)
    }
}

/// A summatory tail splits into its odd and its even terms.
proof fn lemma_sum_parity(f: spec_fn(int) -> int, mm: int, t: int)
    requires
        1 <= t,
    ensures
        sum_from(f, mm, t) == odd_from(
            f,
            mm,
            if t % 2 == 1 {
                t
            } else {
                t + 1
            },
        ) + even_from(
            f,
            mm,
            if t % 2 == 0 {
                t
            } else {
                t + 1
            },
        ),
    decreases mm + 1 - t,
{
    if t > mm {
        assert(odd_from(f, mm, t) == 0);
        assert(odd_from(f, mm, t + 1) == 0);
        assert(even_from(f, mm, t) == 0);
        assert(even_from(f, mm, t + 1) == 0);
    } else {
        lemma_sum_parity(f, mm, t + 1);
    }
}

/// Reindexing the even terms: the terms at even arguments are the full
/// summatory sum at half the bound.
proof fn lemma_even_half(f: spec_fn(int) -> int, mm: int, j: int)
    requires
        1 <= j,
        mm >= 0,
    ensures
        even_from(f, mm, 2 * j) == sum_from(f, mm / 2, j),
    decreases mm + 1 - j,
{
    lemma_fundamental_div_mod(mm, 2);
    lemma_mod_bound(mm, 2);
    if 2 * j > mm {
        assert(j > mm / 2) by (nonlinear_arith)
            requires 2 * j > mm && mm == 2 * (mm / 2) + mm % 2 && mm % 2 >= 0;
        assert(even_from(f, mm, 2 * j) == 0);
        assert(sum_from(f, mm / 2, j) == 0);
    } else {
        assert(j <= mm / 2) by (nonlinear_arith)
            requires 2 * j <= mm && mm == 2 * (mm / 2) + mm % 2 && mm % 2 < 2;
        lemma_even_half(f, mm, j + 1);
        lemma_div_denominator_wrapper(mm, 2, j);
        assert(even_from(f, mm, 2 * j) == f(mm / (2 * j)) + even_from(f, mm, 2 * j + 2));
        assert(2 * (j + 1) == 2 * j + 2);
    }
}

/// The quotient map is idempotent: `n/d` is itself a quotient of `n`, and
/// dividing `n` by it twice gives it back.
proof fn lemma_div_div_id(n: int, d: int)
    requires
        n >= 1,
        d >= 1,
        n / d >= 1,
    ensures
        n / (n / (n / d)) == n / d,
{
    let mm = n / d;
    let e = n / mm;
    lemma_fundamental_div_mod(n, d);
    lemma_mod_bound(n, d);
    lemma_fundamental_div_mod(n, mm);
    lemma_mod_bound(n, mm);
    // d <= e, since d * mm <= n
    assert(d * mm <= n) by (nonlinear_arith)
        requires n == d * mm + n % d && n % d >= 0;
    assert(d <= e) by (nonlinear_arith)
        requires
            d * mm <= n,
            n == mm * e + n % mm,
            0 <= n % mm < mm,
            mm >= 1,
            d >= 1,
    ;
    lemma_fundamental_div_mod(n, e);
    lemma_mod_bound(n, e);
    assert(e >= 1) by (nonlinear_arith)
        requires d <= e && d >= 1;
    // mm <= n/e, since mm * e <= n
    assert(mm * e <= n) by (nonlinear_arith)
        requires n == mm * e + n % mm && n % mm >= 0;
    assert(mm <= n / e) by (nonlinear_arith)
        requires
            mm * e <= n,
            n == e * (n / e) + n % e,
            0 <= n % e < e,
            e >= 1,
            mm >= 1,
    ;
    // n/e <= mm, since n < d*(mm+1) <= e*(mm+1)
    assert(n < d * (mm + 1)) by (nonlinear_arith)
        requires n == d * mm + n % d && n % d < d;
    assert(n < e * (mm + 1)) by (nonlinear_arith)
        requires n < d * (mm + 1) && d <= e && mm + 1 >= 1;
    assert(n / e <= mm) by (nonlinear_arith)
        requires
            n < e * (mm + 1),
            n == e * (n / e) + n % e,
            n % e >= 0,
            e >= 1,
    ;
}

/// Looks a summatory value up in the two tables.
fn g_look(n: usize, sq: usize, glow: &Vec<i64>, ghigh: &Vec<i64>, x: usize) -> (r: i64)
    requires
        1 <= n,
        is_isqrt(sq as int, n as int),
        glow@.len() == sq + 1,
        ghigh@.len() == sq + 1,
        x <= n,
    ensures
        r as int == g_at(glow@, ghigh@, n as int, x as int),
{
    if x == 0 {
        0
    } else if x <= sq {
        glow[x]
    } else {
        proof {
            lemma_quot_under_sqrt(n as int, sq as int, x as int);
            lemma_div_pos_is_pos(n as int, x as int);
        }
        ghigh[n / x]
    }
}

/// Calculates `f(n)` from tables of the sums `g(m)`: `glow[x]` holds
/// `g(x)` for `x` up to the square root of `n`, and `ghigh[d]` holds
/// `g(n/d)` for `d` up to the same bound.
#[verifier::loop_isolation(false)]
#[verifier::rlimit(100)]
pub fn moebius_from_sums(n: usize, sq: usize, glow: &Vec<i64>, ghigh: &Vec<i64>) -> (r: i64)
    requires
        1 <= n,
        n < usize::MAX,
        n as int <= i64::MAX as int,
        is_isqrt(sq as int, n as int),
        glow@.len() == sq + 1,
        ghigh@.len() == sq + 1,
    ensures
        r as int == wrap64(f_rec(glow@, ghigh@, n as int, n as int)),
{
    let ghost gl = glow@;
    let ghost gh = ghigh@;
    let ghost ni = n as int;
    proof {
        if sq >= 1 {
            assert(sq as int <= (sq as int) * (sq as int)) by (nonlinear_arith)
                requires sq >= 1;
        }
        if sq == 0 {
            assert((0int + 1) * (0int + 1) == 1);
            assert(false);
        }
    }
    let mut low: Vec<i64> = Vec::new();
    let mut z: usize = 0;
    while z < sq + 1
        invariant
            z <= sq + 1,
            low@.len() == z,
        decreases sq + 1 - z,
    {
        low.push(0i64);
        z = z + 1;
    }
    let g1 = g_look(n, sq, glow, ghigh, 1);
    low.set(1, g1);
    proof {
        assert(odd_sum_from(gl, gh, ni, 1, 3) == 0);
        assert(g_at(gl, gh, ni, 0) == 0);
        assert(f_rec(gl, gh, ni, 1) == g_at(gl, gh, ni, 1));
        lemma_wrap_id(g_at(gl, gh, ni, 1));
    }
    let mut m: usize = 2;
    while m <= sq
        invariant
            low@.len() == sq + 1,
            2 <= m <= sq + 1,
            forall|j: int|
                1 <= j < m ==> (#[trigger] low@[j]) as int == wrap64(f_rec(gl, gh, ni, j)),
        decreases sq + 1 - m,
    {
        let gm = g_look(n, sq, glow, ghigh, m);
        let gm2 = g_look(n, sq, glow, ghigh, m / 2);
        let mut acc = gm.wrapping_sub(gm2);
        proof {
            lemma_wrapping_sub(gm, gm2);
        }
        let mut k: usize = 3;
        while k <= m
            invariant
                2 <= m <= sq,
                3 <= k,
                k % 2 == 1,
                forall|j: int|
                    1 <= j < m ==> (#[trigger] low@[j]) as int == wrap64(f_rec(gl, gh, ni, j)),
                acc as int == wrap64(
                    f_rec(gl, gh, ni, m as int) + odd_sum_from(gl, gh, ni, m as int, k as int),
                ),
            decreases m + 2 - k,
        {
            proof {
                lemma_div_is_ordered_by_denominator(m as int, k as int, m as int);
                vstd::arithmetic::div_mod::lemma_div_by_self(m as int);
            }
            let q = m / k;
            let nextk0 = m / q + 1;
            let nextk = nextk0 | 1;
            proof {
                lemma_or_one(nextk0);
                lemma_quot_bound(m as int, k as int);
                lemma_div_pos_is_pos(m as int, q as int);
                vstd::arithmetic::div_mod::lemma_div_nonincreasing(m as int, q as int);
                assert(nextk as int >= k + 2);
                assert(nextk <= m + 2);
            }
            let cnt = (nextk - k) / 2;
            let tmp = cnt as i64;
            proof {
                vstd::arithmetic::div_mod::lemma_div_decreases(m as int, k as int);
                lemma_div_pos_is_pos(m as int, k as int);
            }
            let lv = low[m / k];
            let prod = tmp.wrapping_mul(lv);
            let ghost acc_old = acc;
            acc = acc.wrapping_sub(prod);
            proof {
                lemma_wrapping_mul(tmp, lv);
                lemma_wrapping_sub(acc_old, prod);
                lemma_fold_step(
                    gl,
                    gh,
                    ni,
                    m as int,
                    k as int,
                    nextk as int,
                    f_rec(gl, gh, ni, m as int),
                    acc_old as int,
                    lv as int,
                    acc as int,
                );
            }
            k = nextk;
        }
        proof {
            assert(odd_sum_from(gl, gh, ni, m as int, k as int) == 0);
        }
        low.set(m, acc);
        m = m + 1;
    }
    let mut high: Vec<i64> = Vec::new();
    let mut z2: usize = 0;
    while z2 < sq + 1
        invariant
            z2 <= sq + 1,
            high@.len() == z2,
            forall|j: int|
                1 <= j <= sq ==> (#[trigger] low@[j]) as int == wrap64(f_rec(gl, gh, ni, j)),
            low@.len() == sq + 1,
        decreases sq + 1 - z2,
    {
        high.push(0i64);
        z2 = z2 + 1;
    }
    let top = if sq % 2 == 0 {
        sq - 1
    } else {
        sq
    };
    let mut md = top;
    while md >= 1
        invariant
            forall|j: int|
                1 <= j <= sq ==> (#[trigger] low@[j]) as int == wrap64(f_rec(gl, gh, ni, j)),
            low@.len() == sq + 1,
            high@.len() == sq + 1,
            1 <= top <= sq,
            top % 2 == 1,
            md <= top,
            md % 2 == 1 || md == 0,
            forall|j: int|
                md < j <= top && j % 2 == 1 ==> (#[trigger] high@[j]) as int == wrap64(
                    f_rec(gl, gh, ni, ni / j),
                ),
        decreases md,
    {
        proof {
            lemma_div_is_ordered_by_denominator(ni, md as int, ni);
            vstd::arithmetic::div_mod::lemma_div_by_self(ni);
            vstd::arithmetic::div_mod::lemma_div_nonincreasing(ni, md as int);
        }
        let mm = n / md;
        let gm = g_look(n, sq, glow, ghigh, mm);
        let gm2 = g_look(n, sq, glow, ghigh, mm / 2);
        let mut acc = gm.wrapping_sub(gm2);
        proof {
            lemma_wrapping_sub(gm, gm2);
        }
        let mut k: usize = 3;
        while k <= sq / md
            invariant
                1 <= md <= top,
                md % 2 == 1,
                mm == n / md,
                1 <= mm <= n,
                3 <= k,
                k % 2 == 1,
                acc as int == wrap64(
                    f_rec(gl, gh, ni, mm as int) + odd_sum_from(gl, gh, ni, mm as int, k as int),
                ),
            decreases mm + 2 - k,
        {
            proof {
                lemma_fundamental_div_mod(sq as int, md as int);
                lemma_mod_bound(sq as int, md as int);
                assert((k as int) * (md as int) <= sq as int) by (nonlinear_arith)
                    requires
                        k as int <= (sq as int) / (md as int),
                        sq as int == (md as int) * ((sq as int) / (md as int)) + (sq as int) % (
                        md as int),
                        (sq as int) % (md as int) >= 0,
                        md >= 1,
                ;
                vstd::arithmetic::div_mod::lemma_div_is_ordered(sq as int, ni, md as int);
                assert(k <= mm);
            }
            let idx = k * md;
            proof {
                lemma_odd_mul(k as int, md as int);
                assert(idx as int > md as int) by (nonlinear_arith)
                    requires k >= 3 && md >= 1 && idx as int == (k as int) * (md as int);
                assert(idx <= top);
                lemma_div_denominator_wrapper(ni, md as int, k as int);
                assert((mm as int) / (k as int) == ni / (idx as int));
            }
            let hv = high[idx];
            proof {
                lemma_div_is_ordered_by_denominator(mm as int, k as int, mm as int);
                vstd::arithmetic::div_mod::lemma_div_by_self(mm as int);
            }
            let q = mm / k;
            let nextk0 = mm / q + 1;
            let nextk = nextk0 | 1;
            proof {
                lemma_or_one(nextk0);
                lemma_quot_bound(mm as int, k as int);
                lemma_div_pos_is_pos(mm as int, q as int);
                vstd::arithmetic::div_mod::lemma_div_nonincreasing(mm as int, q as int);
                assert(nextk as int >= k + 2);
                assert(nextk <= mm + 2);
            }
            let cnt = (nextk - k) / 2;
            let tmp = cnt as i64;
            let prod = tmp.wrapping_mul(hv);
            let ghost acc_old = acc;
            acc = acc.wrapping_sub(prod);
            proof {
                lemma_wrapping_mul(tmp, hv);
                lemma_wrapping_sub(acc_old, prod);
                lemma_fold_step(
                    gl,
                    gh,
                    ni,
                    mm as int,
                    k as int,
                    nextk as int,
                    f_rec(gl, gh, ni, mm as int),
                    acc_old as int,
                    hv as int,
                    acc as int,
                );
            }
            k = nextk;
        }
        proof {
            lemma_fundamental_div_mod(sq as int, md as int);
            lemma_mod_bound(sq as int, md as int);
            assert((k as int) * (md as int) > sq as int) by (nonlinear_arith)
                requires
                    k as int > (sq as int) / (md as int),
                    sq as int == (md as int) * ((sq as int) / (md as int)) + (sq as int) % (
                    md as int),
                    (sq as int) % (md as int) < md as int,
                    md >= 1,
            ;
        }
        while k <= mm
            invariant
                1 <= md <= top,
                md % 2 == 1,
                mm == n / md,
                1 <= mm <= n,
                3 <= k,
                k % 2 == 1,
                (k as int) * (md as int) > sq as int,
                forall|j: int|
                    1 <= j <= sq ==> (#[trigger] low@[j]) as int == wrap64(f_rec(gl, gh, ni, j)),
                low@.len() == sq + 1,
                acc as int == wrap64(
                    f_rec(gl, gh, ni, mm as int) + odd_sum_from(gl, gh, ni, mm as int, k as int),
                ),
            decreases mm + 2 - k,
        {
            proof {
                lemma_quot_under_sqrt(ni, sq as int, (k as int) * (md as int));
                lemma_div_denominator_wrapper(ni, md as int, k as int);
                assert((mm as int) / (k as int) == ni / ((md as int) * (k as int)));
                lemma_div_pos_is_pos(mm as int, k as int);
            }
            let lv = low[mm / k];
            proof {
                lemma_div_is_ordered_by_denominator(mm as int, k as int, mm as int);
                vstd::arithmetic::div_mod::lemma_div_by_self(mm as int);
            }
            let q = mm / k;
            let nextk0 = mm / q + 1;
            let nextk = nextk0 | 1;
            proof {
                lemma_or_one(nextk0);
                lemma_quot_bound(mm as int, k as int);
                lemma_div_pos_is_pos(mm as int, q as int);
                vstd::arithmetic::div_mod::lemma_div_nonincreasing(mm as int, q as int);
                assert(nextk as int >= k + 2);
                assert(nextk <= mm + 2);
                assert((nextk as int) * (md as int) > sq as int) by (nonlinear_arith)
                    requires
                        (k as int) * (md as int) > sq as int,
                        nextk as int > k as int,
                        md >= 1,
                ;
            }
            let cnt = (nextk - k) / 2;
            let tmp = cnt as i64;
            let prod = tmp.wrapping_mul(lv);
            let ghost acc_old = acc;
            acc = acc.wrapping_sub(prod);
            proof {
                lemma_wrapping_mul(tmp, lv);
                lemma_wrapping_sub(acc_old, prod);
                lemma_fold_step(
                    gl,
                    gh,
                    ni,
                    mm as int,
                    k as int,
                    nextk as int,
                    f_rec(gl, gh, ni, mm as int),
                    acc_old as int,
                    lv as int,
                    acc as int,
                );
            }
            k = nextk;
        }
        proof {
            assert(odd_sum_from(gl, gh, ni, mm as int, k as int) == 0);
        }
        high.set(md, acc);
        if md >= 2 {
            md = md - 2;
        } else {
            md = 0;
        }
    }
    let r = high[1];
    proof {
        lemma_fundamental_div_mod(ni, 1);
        lemma_mod_bound(ni, 1);
        assert(ni / 1 == ni);
    }
    r
}

/// Division by a product, as two divisions in turn.
proof fn lemma_div_denominator_wrapper(x: int, c: int, d: int)
    requires
        0 <= x,
        0 < c,
        0 < d,
    ensures
        (x / c) / d == x / (c * d),
        (x / c) / d == x / (d * c),
    {
    vstd::arithmetic::div_mod::lemma_div_denominator(x, c, d);
    vstd::arithmetic::mul::lemma_mul_is_commutative(c, d);
}

/// Calculates `f(n)`, when given the sums `g(m)` over `k` from 1 to `m` of
/// `f(n/k)` as a callback: first collects the summatory values the
/// recurrence reads, then folds them.
pub fn moebius_inversion<F: Fn(usize) -> i64>(n: usize, g: F) -> (r: i64)
    requires
        1 <= n,
        n < usize::MAX,
        n as int <= i64::MAX as int,
        forall|x: usize| 1 <= x <= n ==> call_requires(g, (x,)),
    ensures
        exists|gl: Seq<i64>, gh: Seq<i64>, sq: int|
            #[trigger] inversion_witness(n as int, r as int, gl, gh, sq) && (forall|x: int|
                1 <= x <= sq ==> call_ensures(g, ((x as usize),), #[trigger] gl[x])) && (forall|
                d: int,
            |
                1 <= d <= sq ==> call_ensures(g, (((n as int / d) as usize),), #[trigger] gh[d])),
{
    let sq = isqrt(n);
    proof {
        if sq >= 1 {
            assert(sq as int <= (sq as int) * (sq as int)) by (nonlinear_arith)
                requires sq >= 1;
        }
    }
    let mut glow: Vec<i64> = Vec::new();
    glow.push(0);
    let mut x: usize = 1;
    while x <= sq
        invariant
            1 <= x <= sq + 1,
            sq <= n,
            glow@.len() == x,
            n < usize::MAX,
            is_isqrt(sq as int, n as int),
            forall|xx: usize| 1 <= xx <= n ==> call_requires(g, (xx,)),
            forall|t: int| 1 <= t < x ==> call_ensures(g, ((t as usize),), #[trigger] glow@[t]),
        decreases sq + 1 - x,
    {
        let v = g(x);
        glow.push(v);
        x = x + 1;
    }
    let mut ghigh: Vec<i64> = Vec::new();
    ghigh.push(0);
    let mut d: usize = 1;
    while d <= sq
        invariant
            1 <= d <= sq + 1,
            sq <= n,
            1 <= n,
            ghigh@.len() == d,
            n < usize::MAX,
            is_isqrt(sq as int, n as int),
            forall|xx: usize| 1 <= xx <= n ==> call_requires(g, (xx,)),
            forall|t: int|
                1 <= t < d ==> call_ensures(g, (((n as int / t) as usize),), #[trigger] ghigh@[t]),
        decreases sq + 1 - d,
    {
        proof {
            lemma_div_pos_is_pos(n as int, d as int);
            vstd::arithmetic::div_mod::lemma_div_nonincreasing(n as int, d as int);
            lemma_div_is_ordered_by_denominator(n as int, d as int, n as int);
            vstd::arithmetic::div_mod::lemma_div_by_self(n as int);
        }
        let v = g(n / d);
        ghigh.push(v);
        d = d + 1;
    }
    let r = moebius_from_sums(n, sq, &glow, &ghigh);
    proof {
        assert(inversion_witness(n as int, r as int, glow@, ghigh@, sq as int));
    }
    r
}

/// The two tables hold the summatory function of `f`: `gl[x]` its value at
/// `x`, `gh[d]` its value at `n/d`.
pub open spec fn summatory_tables(
    f: spec_fn(int) -> int,
    gl: Seq<i64>,
    gh: Seq<i64>,
    n: int,
    sq: int,
) -> bool {
    &&& n >= 1
    &&& is_isqrt(sq, n)
    &&& gl.len() == sq + 1
    &&& gh.len() == sq + 1
    &&& forall|x: int| 1 <= x <= sq ==> #[trigger] (gl[x] as int) == summatory(f, x)
    &&& forall|d: int| 1 <= d <= sq ==> #[trigger] (gh[d] as int) == summatory(f, n / d)
}

/// A table lookup at a quotient argument gives the summatory value there.
proof fn lemma_gat_quotient(
    f: spec_fn(int) -> int,
    gl: Seq<i64>,
    gh: Seq<i64>,
    n: int,
    sq: int,
    d: int,
)
    requires
        summatory_tables(f, gl, gh, n, sq),
        d >= 1,
        n / d >= 1,
    ensures
        g_at(gl, gh, n, n / d) == summatory(f, n / d),
{
    let x = n / d;
    if x < gl.len() {
        assert(1 <= x <= sq);
    } else {
        lemma_quot_under_sqrt(n, sq, x);
        vstd::arithmetic::div_mod::lemma_div_nonincreasing(n, d);
        lemma_div_is_ordered_by_denominator(n, x, n);
        vstd::arithmetic::div_mod::lemma_div_by_self(n);
        assert(1 <= n / x <= sq);
        lemma_div_div_id(n, d);
        assert(g_at(gl, gh, n, x) == gh[n / x] as int);
        assert(gh[n / x] as int == summatory(f, n / (n / x)));
    }
}

/// The summatory value at `m` splits off `f(m)`, the odd tail, and the
/// summatory value at `m/2`.
proof fn lemma_summatory_split(f: spec_fn(int) -> int, m: int)
    requires
        m >= 1,
    ensures
        summatory(f, m) == f(m) + odd_from(f, m, 3) + summatory(f, m / 2),
{
    lemma_fundamental_div_mod(m, 1);
    lemma_mod_bound(m, 1);
    assert(m / 1 == m);
    assert(summatory(f, m) == f(m) + sum_from(f, m, 2));
    lemma_sum_parity(f, m, 2);
    assert(sum_from(f, m, 2) == odd_from(f, m, 3) + even_from(f, m, 2));
    lemma_even_half(f, m, 1);
    assert(even_from(f, m, 2) == sum_from(f, m / 2, 1));
}

/// The recurrence evaluated at any quotient `n/d` of `n` recovers `f` there,
/// when the tables hold the summatory function of `f`.
proof fn lemma_recover(f: spec_fn(int) -> int, gl: Seq<i64>, gh: Seq<i64>, n: int, sq: int, d: int)
    requires
        summatory_tables(f, gl, gh, n, sq),
        d >= 1,
        n / d >= 1,
    ensures
        f_rec(gl, gh, n, n / d) == f(n / d),
    decreases n / d, n / d + 2,
{
    let m = n / d;
    lemma_gat_quotient(f, gl, gh, n, sq, d);
    lemma_div_denominator_wrapper(n, d, 2);
    assert(m / 2 == n / (d * 2));
    if m / 2 >= 1 {
        assert(d * 2 >= 1) by (nonlinear_arith)
            requires d >= 1;
        lemma_gat_quotient(f, gl, gh, n, sq, d * 2);
    } else {
        assert(g_at(gl, gh, n, m / 2) == 0);
        assert(summatory(f, m / 2) == 0);
    }
    lemma_recover_tail(f, gl, gh, n, sq, d, 3);
    lemma_summatory_split(f, m);
}

/// The odd tail of the recurrence agrees with the odd tail over `f`.
proof fn lemma_recover_tail(
    f: spec_fn(int) -> int,
    gl: Seq<i64>,
    gh: Seq<i64>,
    n: int,
    sq: int,
    d: int,
    k: int,
)
    requires
        summatory_tables(f, gl, gh, n, sq),
        d >= 1,
        n / d >= 1,
        k >= 3,
    ensures
        odd_sum_from(gl, gh, n, n / d, k) == odd_from(f, n / d, k),
    decreases n / d, n / d + 2 - k,
{
    let m = n / d;
    if k <= m {
        lemma_div_denominator_wrapper(n, d, k);
        assert(m / k == n / (d * k));
        lemma_div_is_ordered_by_denominator(m, k, m);
        vstd::arithmetic::div_mod::lemma_div_by_self(m);
        assert(m / k >= 1);
        vstd::arithmetic::div_mod::lemma_div_decreases(m, k);
        assert(m / k < m);
        assert(d * k >= 1) by (nonlinear_arith)
            requires d >= 1 && k >= 3;
        lemma_recover(f, gl, gh, n, sq, d * k);
        lemma_recover_tail(f, gl, gh, n, sq, d, k + 2);
    }
}

/// The recovery law: on tables that hold the summatory function of `f`, the
/// recurrence returns `f(n)` itself.
pub proof fn lemma_moebius_recovers(
    f: spec_fn(int) -> int,
    gl: Seq<i64>,
    gh: Seq<i64>,
    n: int,
    sq: int,
)
    requires
        summatory_tables(f, gl, gh, n, sq),
    ensures
        f_rec(gl, gh, n, n) == f(n),
{
    lemma_fundamental_div_mod(n, 1);
    lemma_mod_bound(n, 1);
    assert(n / 1 == n);
    lemma_recover(f, gl, gh, n, sq, 1);
}

/// The shape of `moebius_inversion`'s result: two tables of the right
/// extent whose folded recurrence gives the returned value.
pub open spec fn inversion_witness(n: int, r: int, gl: Seq<i64>, gh: Seq<i64>, sq: int) -> bool {
    &&& is_isqrt(sq, n)
    &&& gl.len() == sq + 1
    &&& gh.len() == sq + 1
    &&& r == wrap64(f_rec(gl, gh, n, n))
}

} // verus!
