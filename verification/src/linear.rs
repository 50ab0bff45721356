//! Linear algebra: dense matrices over the field of integers modulo a prime.

use vstd::prelude::*;
use vstd::arithmetic::div_mod::{
    lemma_fundamental_div_mod, lemma_fundamental_div_mod_converse, lemma_mod_bound,
    lemma_mod_multiples_vanish, lemma_mul_mod_noop_general, lemma_small_mod,
};

verus! {

/// `a` is a `rows` by `cols` grid.
pub open spec fn mat_dims(a: Seq<Seq<int>>, rows: int, cols: int) -> bool {
    a.len() == rows && forall|r: int| 0 <= r < rows ==> (#[trigger] a[r]).len() == cols
}

/// Every entry of `a` is a residue modulo `m`.
pub open spec fn mat_reduced(a: Seq<Seq<int>>, m: int) -> bool {
    forall|r: int, c: int|
        0 <= r < a.len() && 0 <= c < a[r].len() ==> 0 <= #[trigger] a[r][c] < m
}

/// The dot product of a row with column `c` of `b`, over the first `k` terms.
pub open spec fn dotc(u: Seq<int>, b: Seq<Seq<int>>, c: int, k: int) -> int
    decreases k,
{
    if k <= 0 {
        0
    } else {
        dotc(u, b, c, k - 1) + u[k - 1] * b[k - 1][c]
    }
}

/// The matrix product of `a` and `b` with entries reduced modulo `m`;
/// `colsb` is the width of `b`.
pub open spec fn mat_mul_spec(a: Seq<Seq<int>>, b: Seq<Seq<int>>, colsb: int, m: int) -> Seq<
    Seq<int>,
> {
    Seq::new(a.len(), |r: int| Seq::new(colsb as nat, |c: int| dotc(a[r], b, c, b.len() as int) % m))
}

/// The identity grid of side `k`.
pub open spec fn identity_spec(k: int) -> Seq<Seq<int>> {
    Seq::new(k as nat, |r: int| Seq::new(k as nat, |c: int| if r == c { 1int } else { 0int }))
}

/// A matrix with elements in the integers modulo `modulus`, stored row-major.
pub struct Matrix {
    data: Vec<u64>,
    rows: usize,
    cols: usize,
    modulus: u64,
}

/// A flat row-major index addresses exactly one cell of the grid.
proof fn lemma_rc(r: int, c: int, rows: int, cols: int)
    requires
        0 <= r < rows,
        0 <= c < cols,
    ensures
        0 <= r * cols + c < rows * cols,
        0 <= r * cols,
{
    assert(r * cols + c < rows * cols) by (nonlinear_arith)
        requires 0 <= r < rows && 0 <= c < cols;
    assert(r * cols >= 0) by (nonlinear_arith)
        requires r >= 0 && cols >= 0;
}

/// Distinct cells have distinct flat indices.
proof fn lemma_rc_inj(r1: int, c1: int, r2: int, c2: int, cols: int)
    requires
        0 <= c1 < cols,
        0 <= c2 < cols,
        0 <= r1,
        0 <= r2,
        r1 * cols + c1 == r2 * cols + c2,
    ensures
        r1 == r2 && c1 == c2,
{
    lemma_fundamental_div_mod_converse(r1 * cols + c1, cols, r1, c1);
    lemma_fundamental_div_mod_converse(r2 * cols + c2, cols, r2, c2);
}

/// Reducing the left addend first does not change a sum's remainder.
proof fn lemma_mod_add_left(p: int, q: int, m: int)
    requires
        m >= 1,
    ensures
        (p % m + q) % m == (p + q) % m,
{
    lemma_fundamental_div_mod(p, m);
    lemma_mod_multiples_vanish(-(p / m), p + q, m);
    assert(p % m + q == p + q + m * (-(p / m))) by (nonlinear_arith)
        requires p == m * (p / m) + p % m;
}

/// The first `c` columns of `a` look like the identity.
pub open spec fn id_cols(a: Seq<Seq<int>>, rows: int, c: int) -> bool {
    forall|i: int, j: int|
        0 <= i < rows && 0 <= j < c ==> #[trigger] a[i][j] == (if i == j {
            1int
        } else {
            0int
        })
}

/// A dot product against a row scaled entrywise modulo `m` is the scaled
/// dot product, modulo `m`.
proof fn lemma_dot_scale(u: Seq<int>, s: Seq<int>, x: Seq<Seq<int>>, c: int, kk: int, f: int, m: int)
    requires
        m >= 1,
        forall|j: int| 0 <= j < kk ==> #[trigger] s[j] == (f * u[j]) % m,
    ensures
        dotc(s, x, c, kk) % m == (f * dotc(u, x, c, kk)) % m,
    decreases kk,
{
    if kk <= 0 {
        lemma_small_mod(0nat, m as nat);
        assert(f * 0 == 0) by (nonlinear_arith);
    } else {
        lemma_dot_scale(u, s, x, c, kk - 1, f, m);
        let y = x[kk - 1][c];
        lemma_mul_mod_noop_general(f * u[kk - 1], y, m);
        assert(((f * u[kk - 1]) % m) * y == s[kk - 1] * y);
        vstd::arithmetic::div_mod::lemma_add_mod_noop(dotc(s, x, c, kk - 1), s[kk - 1] * y, m);
        vstd::arithmetic::div_mod::lemma_add_mod_noop(f * dotc(u, x, c, kk - 1), (f * u[kk - 1]) * y, m);
        assert(f * dotc(u, x, c, kk) == f * dotc(u, x, c, kk - 1) + (f * u[kk - 1]) * y)
            by (nonlinear_arith)
            requires dotc(u, x, c, kk) == dotc(u, x, c, kk - 1) + u[kk - 1] * y;
    }
}

/// A dot product against a row combined entrywise modulo `m` is the combined
/// dot product, modulo `m`.
proof fn lemma_dot_addmul(
    u: Seq<int>,
    w: Seq<int>,
    s: Seq<int>,
    x: Seq<Seq<int>>,
    c: int,
    kk: int,
    f: int,
    m: int,
)
    requires
        m >= 1,
        forall|j: int| 0 <= j < kk ==> #[trigger] s[j] == (u[j] + f * w[j]) % m,
    ensures
        dotc(s, x, c, kk) % m == (dotc(u, x, c, kk) + f * dotc(w, x, c, kk)) % m,
    decreases kk,
{
    if kk <= 0 {
        lemma_small_mod(0nat, m as nat);
        assert(f * 0 == 0) by (nonlinear_arith);
    } else {
        lemma_dot_addmul(u, w, s, x, c, kk - 1, f, m);
        let y = x[kk - 1][c];
        lemma_mul_mod_noop_general(u[kk - 1] + f * w[kk - 1], y, m);
        assert(((u[kk - 1] + f * w[kk - 1]) % m) * y == s[kk - 1] * y);
        vstd::arithmetic::div_mod::lemma_add_mod_noop(dotc(s, x, c, kk - 1), s[kk - 1] * y, m);
        vstd::arithmetic::div_mod::lemma_add_mod_noop(
            dotc(u, x, c, kk - 1) + f * dotc(w, x, c, kk - 1),
            (u[kk - 1] + f * w[kk - 1]) * y,
            m,
        );
        assert(dotc(u, x, c, kk) + f * dotc(w, x, c, kk) == (dotc(u, x, c, kk - 1) + f * dotc(
            w,
            x,
            c,
            kk - 1,
        )) + (u[kk - 1] + f * w[kk - 1]) * y) by (nonlinear_arith)
            requires
                dotc(u, x, c, kk) == dotc(u, x, c, kk - 1) + u[kk - 1] * y,
                dotc(w, x, c, kk) == dotc(w, x, c, kk - 1) + w[kk - 1] * y,
        ;
    }
}

/// A dot product against a unit row picks one entry.
proof fn lemma_dot_unit(u: Seq<int>, x: Seq<Seq<int>>, c: int, kk: int, r: int)
    requires
        forall|j: int| 0 <= j < kk ==> #[trigger] u[j] == (if j == r {
            1int
        } else {
            0int
        }),
    ensures
        dotc(u, x, c, kk) == if 0 <= r < kk {
            x[r][c]
        } else {
            0
        },
    decreases kk,
{
    if kk > 0 {
        lemma_dot_unit(u, x, c, kk - 1, r);
    }
}

/// Multiplying by the identity on the left gives the grid back.
proof fn lemma_mul_identity(x: Seq<Seq<int>>, n: int, colsb: int, m: int)
    requires
        m >= 1,
        mat_dims(x, n, colsb),
        mat_reduced(x, m),
    ensures
        mat_mul_spec(identity_spec(n), x, colsb, m) == x,
{
    let p = mat_mul_spec(identity_spec(n), x, colsb, m);
    assert forall|r: int| 0 <= r < n implies p[r] =~= x[r] by {
        assert forall|c: int| 0 <= c < colsb implies p[r][c] == x[r][c] by {
            lemma_dot_unit(identity_spec(n)[r], x, c, n, r);
            lemma_small_mod(x[r][c] as nat, m as nat);
        }
    }
    assert(p =~= x);
}

/// A dot product against congruent entries of the grid argument keeps its
/// remainder.
proof fn lemma_dot_cong_grid(u: Seq<int>, x: Seq<Seq<int>>, y: Seq<Seq<int>>, l: int, kk: int, m: int)
    requires
        m >= 1,
        forall|j: int| 0 <= j < kk ==> #[trigger] (x[j][l] % m) == y[j][l] % m,
    ensures
        dotc(u, x, l, kk) % m == dotc(u, y, l, kk) % m,
    decreases kk,
{
    if kk > 0 {
        lemma_dot_cong_grid(u, x, y, l, kk - 1, m);
        lemma_mul_mod_noop_general(u[kk - 1], x[kk - 1][l], m);
        lemma_mul_mod_noop_general(u[kk - 1], y[kk - 1][l], m);
        vstd::arithmetic::div_mod::lemma_add_mod_noop(
            dotc(u, x, l, kk - 1),
            u[kk - 1] * x[kk - 1][l],
            m,
        );
        vstd::arithmetic::div_mod::lemma_add_mod_noop(
            dotc(u, y, l, kk - 1),
            u[kk - 1] * y[kk - 1][l],
            m,
        );
    }
}

/// A dot product against congruent row entries keeps its remainder.
proof fn lemma_dot_cong_row(u: Seq<int>, v: Seq<int>, x: Seq<Seq<int>>, l: int, kk: int, m: int)
    requires
        m >= 1,
        forall|j: int| 0 <= j < kk ==> #[trigger] (u[j] % m) == v[j] % m,
    ensures
        dotc(u, x, l, kk) % m == dotc(v, x, l, kk) % m,
    decreases kk,
{
    if kk > 0 {
        lemma_dot_cong_row(u, v, x, l, kk - 1, m);
        lemma_mul_mod_noop_general(u[kk - 1], x[kk - 1][l], m);
        lemma_mul_mod_noop_general(v[kk - 1], x[kk - 1][l], m);
        vstd::arithmetic::div_mod::lemma_add_mod_noop(
            dotc(u, x, l, kk - 1),
            u[kk - 1] * x[kk - 1][l],
            m,
        );
        vstd::arithmetic::div_mod::lemma_add_mod_noop(
            dotc(v, x, l, kk - 1),
            v[kk - 1] * x[kk - 1][l],
            m,
        );
    }
}

/// A dot product against a unit column of the grid picks one row entry.
proof fn lemma_dot_unit_grid(u: Seq<int>, x: Seq<Seq<int>>, l: int, kk: int)
    requires
        forall|j: int| 0 <= j < kk ==> #[trigger] x[j][l] == (if j == l {
            1int
        } else {
            0int
        }),
    ensures
        dotc(u, x, l, kk) == if 0 <= l < kk {
            u[l]
        } else {
            0
        },
    decreases kk,
{
    if kk > 0 {
        lemma_dot_unit_grid(u, x, l, kk - 1);
        if kk - 1 == l {
            assert(u[kk - 1] * 1 == u[kk - 1]);
        } else {
            assert(u[kk - 1] * 0 == 0) by (nonlinear_arith);
        }
    }
}

/// Multiplying by the identity on the right gives the grid back.
proof fn lemma_mul_identity_right(x: Seq<Seq<int>>, n: int, m: int)
    requires
        m >= 1,
        mat_dims(x, n, n),
        mat_reduced(x, m),
    ensures
        mat_mul_spec(x, identity_spec(n), n, m) == x,
{
    let p = mat_mul_spec(x, identity_spec(n), n, m);
    assert forall|r: int| 0 <= r < n implies p[r] =~= x[r] by {
        assert forall|c: int| 0 <= c < n implies p[r][c] == x[r][c] by {
            assert forall|j: int| 0 <= j < n implies #[trigger] identity_spec(n)[j][c] == (if j == c {
                1int
            } else {
                0int
            }) by {}
            lemma_dot_unit_grid(x[r], identity_spec(n), c, n);
            lemma_small_mod(x[r][c] as nat, m as nat);
        }
    }
    assert(p =~= x);
}

/// Shifting every entry of one grid column by a multiple of a fixed value
/// shifts the dot product by that multiple of a second dot product.
proof fn lemma_dot_shift(
    u: Seq<int>,
    x: Seq<Seq<int>>,
    y: Seq<Seq<int>>,
    b: Seq<Seq<int>>,
    kpos: int,
    t: int,
    l: int,
    jj: int,
)
    requires
        forall|j: int| 0 <= j < jj ==> #[trigger] x[j][l] == y[j][l] + b[j][kpos] * t,
    ensures
        dotc(u, x, l, jj) == dotc(u, y, l, jj) + dotc(u, b, kpos, jj) * t,
    decreases jj,
{
    if jj <= 0 {
        assert(0 * t == 0) by (nonlinear_arith);
    } else {
        lemma_dot_shift(u, x, y, b, kpos, t, l, jj - 1);
        assert(u[jj - 1] * (y[jj - 1][l] + b[jj - 1][kpos] * t) == u[jj - 1] * y[jj - 1][l] + (u[jj
            - 1] * b[jj - 1][kpos]) * t) by (nonlinear_arith);
        assert((dotc(u, b, kpos, jj - 1) + u[jj - 1] * b[jj - 1][kpos]) * t == dotc(
            u,
            b,
            kpos,
            jj - 1,
        ) * t + (u[jj - 1] * b[jj - 1][kpos]) * t) by (nonlinear_arith);
    }
}

/// Exchanging the two sums of a double product: the dot of row `u` with the
/// unreduced products of `b` against `c` equals the dot of the unreduced
/// products of `u` against `b` with `c`.
proof fn lemma_dot_swap(
    u: Seq<int>,
    b: Seq<Seq<int>>,
    cg: Seq<Seq<int>>,
    pmat: Seq<int>,
    bcu: Seq<Seq<int>>,
    l: int,
    jj: int,
    kk: int,
)
    requires
        0 <= l,
        forall|k: int| 0 <= k < kk ==> #[trigger] pmat[k] == dotc(u, b, k, jj),
        forall|j: int| 0 <= j < jj ==> #[trigger] bcu[j][l] == dotc(b[j], cg, l, kk),
    ensures
        dotc(pmat, cg, l, kk) == dotc(u, bcu, l, jj),
    decreases kk,
{
    if kk <= 0 {
        let zero = Seq::new(jj as nat, |j: int| Seq::new((l + 1) as nat, |t: int| 0int));
        assert forall|j: int| 0 <= j < jj implies #[trigger] bcu[j][l] == zero[j][l] + b[j][0] * 0 by {
            assert(b[j][0] * 0 == 0) by (nonlinear_arith);
        }
        lemma_dot_shift(u, bcu, zero, b, 0, 0, l, jj);
        lemma_dot_zero(u, zero, l, jj);
        assert(dotc(u, b, 0, jj) * 0 == 0) by (nonlinear_arith);
    } else {
        let bcu_prev = Seq::new(jj as nat, |j: int| Seq::new((l + 1) as nat, |t: int| dotc(b[j], cg, t, kk - 1)));
        assert forall|j: int| 0 <= j < jj implies #[trigger] bcu_prev[j][l] == dotc(
            b[j],
            cg,
            l,
            kk - 1,
        ) by {}
        lemma_dot_swap(u, b, cg, pmat, bcu_prev, l, jj, kk - 1);
        assert forall|j: int| 0 <= j < jj implies #[trigger] bcu[j][l] == bcu_prev[j][l] + b[j][kk
            - 1] * cg[kk - 1][l] by {}
        lemma_dot_shift(u, bcu, bcu_prev, b, kk - 1, cg[kk - 1][l], l, jj);
        assert(pmat[kk - 1] == dotc(u, b, kk - 1, jj));
    }
}

/// A dot product of anything against a zero column is zero.
proof fn lemma_dot_zero(u: Seq<int>, z: Seq<Seq<int>>, l: int, jj: int)
    requires
        forall|j: int| 0 <= j < jj ==> #[trigger] z[j][l] == 0,
    ensures
        dotc(u, z, l, jj) == 0,
    decreases jj,
{
    if jj > 0 {
        lemma_dot_zero(u, z, l, jj - 1);
        assert(u[jj - 1] * 0 == 0) by (nonlinear_arith);
    }
}

/// Matrix multiplication is associative modulo `m`: `a` is `p` by `q`,
/// `b` is `q` by `rr`, `cg` is `rr` by `ss`.
proof fn lemma_mat_mul_assoc(
    a: Seq<Seq<int>>,
    b: Seq<Seq<int>>,
    cg: Seq<Seq<int>>,
    q: int,
    rr: int,
    ss: int,
    m: int,
)
    requires
        m >= 1,
        0 <= q,
        0 <= rr,
        0 <= ss,
        mat_dims(a, a.len() as int, q),
        mat_dims(b, q, rr),
        mat_dims(cg, rr, ss),
    ensures
        mat_mul_spec(mat_mul_spec(a, b, rr, m), cg, ss, m) == mat_mul_spec(
            a,
            mat_mul_spec(b, cg, ss, m),
            ss,
            m,
        ),
{
    let ab = mat_mul_spec(a, b, rr, m);
    let bc = mat_mul_spec(b, cg, ss, m);
    let lhs = mat_mul_spec(ab, cg, ss, m);
    let rhs = mat_mul_spec(a, bc, ss, m);
    assert forall|i: int| 0 <= i < a.len() implies lhs[i] =~= rhs[i] by {
        assert forall|l: int| 0 <= l < ss implies lhs[i][l] == rhs[i][l] by {
            let qrow = Seq::new(rr as nat, |k: int| dotc(a[i], b, k, q));
            let bcu = Seq::new(q as nat, |j: int| Seq::new(ss as nat, |t: int| dotc(b[j], cg, t, rr)));
            // strip the inner reductions on the left
            assert forall|k: int| 0 <= k < rr implies #[trigger] (ab[i][k] % m) == qrow[k] % m by {
                vstd::arithmetic::div_mod::lemma_mod_twice(qrow[k], m);
            }
            lemma_dot_cong_row(ab[i], qrow, cg, l, rr, m);
            // strip the inner reductions on the right
            assert forall|j: int| 0 <= j < q implies #[trigger] (bc[j][l] % m) == bcu[j][l] % m by {
                vstd::arithmetic::div_mod::lemma_mod_twice(bcu[j][l], m);
            }
            lemma_dot_cong_grid(a[i], bc, bcu, l, q, m);
            // exchange the two pure sums
            lemma_dot_swap(a[i], b, cg, qrow, bcu, l, q, rr);
        }
    }
    assert(lhs =~= rhs);
}

/// A matrix product has the left factor's height, the requested width, and
/// reduced entries.
proof fn lemma_mat_mul_shape(a: Seq<Seq<int>>, b: Seq<Seq<int>>, colsb: int, m: int)
    requires
        m >= 1,
        colsb >= 0,
    ensures
        mat_dims(mat_mul_spec(a, b, colsb, m), a.len() as int, colsb),
        mat_reduced(mat_mul_spec(a, b, colsb, m), m),
{
    let p = mat_mul_spec(a, b, colsb, m);
    assert forall|r: int, c: int|
        0 <= r < p.len() && 0 <= c < p[r].len() implies 0 <= #[trigger] p[r][c] < m by {
        lemma_mod_bound(dotc(a[r], b, c, b.len() as int), m);
    }
}

/// A dot product against an all-zero row is zero.
proof fn lemma_dot_zero_row(u: Seq<int>, x: Seq<Seq<int>>, c: int, kk: int)
    requires
        forall|j: int| 0 <= j < kk ==> #[trigger] u[j] == 0,
    ensures
        dotc(u, x, c, kk) == 0,
    decreases kk,
{
    if kk > 0 {
        lemma_dot_zero_row(u, x, c, kk - 1);
        assert(0 * x[kk - 1][c] == 0) by (nonlinear_arith);
    }
}

/// A dot product against a row with a single entry `f` picks `f` times one
/// grid entry.
proof fn lemma_dot_single(u: Seq<int>, x: Seq<Seq<int>>, c: int, kk: int, r: int, f: int)
    requires
        forall|j: int| 0 <= j < kk ==> #[trigger] u[j] == (if j == r {
            f
        } else {
            0int
        }),
    ensures
        dotc(u, x, c, kk) == if 0 <= r < kk {
            f * x[r][c]
        } else {
            0
        },
    decreases kk,
{
    if kk > 0 {
        lemma_dot_single(u, x, c, kk - 1, r, f);
        if kk - 1 != r {
            assert(0 * x[kk - 1][c] == 0) by (nonlinear_arith);
        }
    }
}

/// A dot product against a row with a `1` at `dst` and `f` at `src` picks
/// the matching combination of two grid entries.
proof fn lemma_dot_two(u: Seq<int>, x: Seq<Seq<int>>, c: int, kk: int, dst: int, src: int, f: int)
    requires
        dst != src,
        forall|j: int| 0 <= j < kk ==> #[trigger] u[j] == (if j == dst {
            1int
        } else if j == src {
            f
        } else {
            0int
        }),
    ensures
        dotc(u, x, c, kk) == (if 0 <= dst < kk {
            x[dst][c]
        } else {
            0
        }) + (if 0 <= src < kk {
            f * x[src][c]
        } else {
            0
        }),
    decreases kk,
{
    if kk > 0 {
        lemma_dot_two(u, x, c, kk - 1, dst, src, f);
        if kk - 1 == dst {
            assert(1 * x[kk - 1][c] == x[kk - 1][c]);
        } else if kk - 1 != src {
            assert(0 * x[kk - 1][c] == 0) by (nonlinear_arith);
        }
    }
}

/// The elementary matrix exchanging rows `r1` and `r2`.
pub open spec fn swap_mat(n: int, r1: int, r2: int) -> Seq<Seq<int>> {
    Seq::new(
        n as nat,
        |i: int|
            Seq::new(
                n as nat,
                |j: int|
                    if (i == r1 && j == r2) || (i == r2 && j == r1) || (i != r1 && i != r2 && i
                        == j) {
                        1int
                    } else {
                        0int
                    },
            ),
    )
}

/// The elementary matrix scaling row `r` by `f`.
pub open spec fn scale_mat(n: int, r: int, f: int) -> Seq<Seq<int>> {
    Seq::new(
        n as nat,
        |i: int|
            Seq::new(
                n as nat,
                |j: int|
                    if i == r {
                        if j == r {
                            f
                        } else {
                            0int
                        }
                    } else if i == j {
                        1int
                    } else {
                        0int
                    },
            ),
    )
}

/// The elementary matrix adding `f` times row `src` into row `dst`.
pub open spec fn axpy_mat(n: int, dst: int, src: int, f: int) -> Seq<Seq<int>> {
    Seq::new(
        n as nat,
        |i: int|
            Seq::new(
                n as nat,
                |j: int|
                    if i == dst && j == src {
                        f
                    } else if i == j {
                        1int
                    } else {
                        0int
                    },
            ),
    )
}

/// Left-multiplying by the swap matrix exchanges two rows.
proof fn lemma_swap_action(n: int, r1: int, r2: int, y: Seq<Seq<int>>, q: int, m: int)
    requires
        m >= 1,
        0 <= r1 < n,
        0 <= r2 < n,
        mat_dims(y, n, q),
        mat_reduced(y, m),
    ensures
        mat_mul_spec(swap_mat(n, r1, r2), y, q, m) == y.update(r1, y[r2]).update(r2, y[r1]),
{
    let p = mat_mul_spec(swap_mat(n, r1, r2), y, q, m);
    let t = y.update(r1, y[r2]).update(r2, y[r1]);
    assert forall|i: int| 0 <= i < n implies p[i] =~= t[i] by {
        let si: int = if i == r1 {
            r2
        } else if i == r2 {
            r1
        } else {
            i
        };
        assert forall|c: int| 0 <= c < q implies p[i][c] == t[i][c] by {
            lemma_dot_unit(swap_mat(n, r1, r2)[i], y, c, n, si);
            lemma_small_mod(y[si][c] as nat, m as nat);
        }
    }
    assert(p =~= t);
}

/// Left-multiplying by the scale matrix scales one row modulo `m`.
proof fn lemma_scale_action(n: int, r: int, f: int, y: Seq<Seq<int>>, q: int, m: int)
    requires
        m >= 1,
        0 <= r < n,
        mat_dims(y, n, q),
        mat_reduced(y, m),
    ensures
        mat_mul_spec(scale_mat(n, r, f), y, q, m) == y.update(
            r,
            Seq::new(q as nat, |c: int| (f * y[r][c]) % m),
        ),
{
    let p = mat_mul_spec(scale_mat(n, r, f), y, q, m);
    let t = y.update(r, Seq::new(q as nat, |c: int| (f * y[r][c]) % m));
    assert forall|i: int| 0 <= i < n implies p[i] =~= t[i] by {
        assert forall|c: int| 0 <= c < q implies p[i][c] == t[i][c] by {
            if i == r {
                lemma_dot_single(scale_mat(n, r, f)[i], y, c, n, r, f);
            } else {
                lemma_dot_unit(scale_mat(n, r, f)[i], y, c, n, i);
                lemma_small_mod(y[i][c] as nat, m as nat);
            }
        }
    }
    assert(p =~= t);
}

/// Left-multiplying by the axpy matrix folds a multiple of one row into
/// another, modulo `m`.
proof fn lemma_axpy_action(n: int, dst: int, src: int, f: int, y: Seq<Seq<int>>, q: int, m: int)
    requires
        m >= 1,
        0 <= dst < n,
        0 <= src < n,
        dst != src,
        mat_dims(y, n, q),
        mat_reduced(y, m),
    ensures
        mat_mul_spec(axpy_mat(n, dst, src, f), y, q, m) == y.update(
            dst,
            Seq::new(q as nat, |c: int| (y[dst][c] + f * y[src][c]) % m),
        ),
{
    let p = mat_mul_spec(axpy_mat(n, dst, src, f), y, q, m);
    let t = y.update(dst, Seq::new(q as nat, |c: int| (y[dst][c] + f * y[src][c]) % m));
    assert forall|i: int| 0 <= i < n implies p[i] =~= t[i] by {
        assert forall|c: int| 0 <= c < q implies p[i][c] == t[i][c] by {
            if i == dst {
                lemma_dot_two(axpy_mat(n, dst, src, f)[i], y, c, n, dst, src, f);
            } else {
                lemma_dot_unit(axpy_mat(n, dst, src, f)[i], y, c, n, i);
                lemma_small_mod(y[i][c] as nat, m as nat);
            }
        }
    }
    assert(p =~= t);
}

/// The swap matrix is its own inverse.
proof fn lemma_swap_inv(n: int, r1: int, r2: int, m: int)
    requires
        m >= 2,
        0 <= r1 < n,
        0 <= r2 < n,
    ensures
        mat_reduced(swap_mat(n, r1, r2), m),
        mat_dims(swap_mat(n, r1, r2), n, n),
        mat_mul_spec(swap_mat(n, r1, r2), swap_mat(n, r1, r2), n, m) == identity_spec(n),
{
    let sm = swap_mat(n, r1, r2);
    lemma_swap_action(n, r1, r2, sm, n, m);
    let t = sm.update(r1, sm[r2]).update(r2, sm[r1]);
    assert forall|i: int| 0 <= i < n implies t[i] =~= identity_spec(n)[i] by {}
    assert(t =~= identity_spec(n));
}

/// Scaling by `f` is undone by scaling by a modular inverse of `f`.
proof fn lemma_scale_inv(n: int, r: int, f: int, fi: int, m: int)
    requires
        m >= 2,
        0 <= r < n,
        0 <= f < m,
        0 <= fi < m,
        (f * fi) % m == 1,
    ensures
        mat_reduced(scale_mat(n, r, f), m),
        mat_dims(scale_mat(n, r, f), n, n),
        mat_mul_spec(scale_mat(n, r, f), scale_mat(n, r, fi), n, m) == identity_spec(n),
{
    let y = scale_mat(n, r, fi);
    lemma_scale_action(n, r, f, y, n, m);
    let t = y.update(r, Seq::new(n as nat, |c: int| (f * y[r][c]) % m));
    assert forall|i: int| 0 <= i < n implies t[i] =~= identity_spec(n)[i] by {
        if i == r {
            assert forall|c: int| 0 <= c < n implies t[i][c] == identity_spec(n)[i][c] by {
                if c != r {
                    assert(f * 0 == 0) by (nonlinear_arith);
                    lemma_small_mod(0nat, m as nat);
                }
            }
        }
    }
    assert(t =~= identity_spec(n));
}

/// Adding `f` times a row is undone by adding `m - f` times it.
proof fn lemma_axpy_inv(n: int, dst: int, src: int, f: int, m: int)
    requires
        m >= 2,
        0 <= dst < n,
        0 <= src < n,
        dst != src,
        0 <= f < m,
    ensures
        mat_reduced(axpy_mat(n, dst, src, f), m),
        mat_dims(axpy_mat(n, dst, src, f), n, n),
        mat_mul_spec(axpy_mat(n, dst, src, f), axpy_mat(n, dst, src, (m - f) % m), n, m)
            == identity_spec(n),
{
    let g = (m - f) % m;
    lemma_mod_bound(m - f, m);
    let y = axpy_mat(n, dst, src, g);
    lemma_axpy_action(n, dst, src, f, y, n, m);
    let t = y.update(dst, Seq::new(n as nat, |c: int| (y[dst][c] + f * y[src][c]) % m));
    assert forall|i: int| 0 <= i < n implies t[i] =~= identity_spec(n)[i] by {
        if i == dst {
            assert forall|c: int| 0 <= c < n implies t[i][c] == identity_spec(n)[i][c] by {
                if c == src {
                    assert(f * 1 == f);
                    if f == 0 {
                        vstd::arithmetic::div_mod::lemma_mod_self_0(m);
                        lemma_small_mod(0nat, m as nat);
                    } else {
                        lemma_small_mod((m - f) as nat, m as nat);
                        vstd::arithmetic::div_mod::lemma_mod_self_0(m);
                    }
                } else if c == dst {
                    assert(f * 0 == 0) by (nonlinear_arith);
                    lemma_small_mod(1nat, m as nat);
                } else {
                    assert(f * 0 == 0) by (nonlinear_arith);
                    lemma_small_mod(0nat, m as nat);
                }
            }
        }
    }
    assert(t =~= identity_spec(n));
}

/// The `e`-th power of a square grid, with entries reduced modulo `m`.
pub open spec fn mat_pow_spec(a: Seq<Seq<int>>, e: nat, n: int, m: int) -> Seq<Seq<int>>
    decreases e,
{
    if e == 0 {
        identity_spec(n)
    } else {
        mat_mul_spec(mat_pow_spec(a, (e - 1) as nat, n, m), a, n, m)
    }
}

/// Powers of a well-formed grid stay well-formed.
proof fn lemma_mat_pow_shape(a: Seq<Seq<int>>, e: nat, n: int, m: int)
    requires
        m >= 1,
        mat_dims(a, n, n),
    ensures
        mat_dims(mat_pow_spec(a, e, n, m), n, n),
        e >= 1 ==> mat_reduced(mat_pow_spec(a, e, n, m), m),
    decreases e,
{
    if e > 0 {
        lemma_mat_pow_shape(a, (e - 1) as nat, n, m);
        let p = mat_pow_spec(a, e, n, m);
        assert forall|r: int, c: int|
            0 <= r < p.len() && 0 <= c < p[r].len() implies 0 <= #[trigger] p[r][c] < m by {
            lemma_mod_bound(dotc(mat_pow_spec(a, (e - 1) as nat, n, m)[r], a, c, n), m);
        }
    }
}

/// A power can also be peeled from the left.
proof fn lemma_mat_pow_left(a: Seq<Seq<int>>, e: nat, n: int, m: int)
    requires
        m >= 1,
        mat_dims(a, n, n),
        mat_reduced(a, m),
    ensures
        e >= 1 ==> mat_pow_spec(a, e, n, m) == mat_mul_spec(
            a,
            mat_pow_spec(a, (e - 1) as nat, n, m),
            n,
            m,
        ),
    decreases e,
{
    if e == 1 {
        lemma_mul_identity(a, n, n, m);
        lemma_mul_identity_right(a, n, m);
    } else if e > 1 {
        lemma_mat_pow_left(a, (e - 1) as nat, n, m);
        lemma_mat_pow_shape(a, (e - 2) as nat, n, m);
        if e == 2 {
            assert(mat_dims(identity_spec(n), n, n));
        }
        lemma_mat_mul_assoc(a, mat_pow_spec(a, (e - 2) as nat, n, m), a, n, n, n, m);
    }
}

/// Squaring the base halves the exponent.
proof fn lemma_mat_pow_square(a: Seq<Seq<int>>, t: nat, n: int, m: int)
    requires
        m >= 1,
        mat_dims(a, n, n),
        mat_reduced(a, m),
    ensures
        mat_pow_spec(a, 2 * t, n, m) == mat_pow_spec(mat_mul_spec(a, a, n, m), t, n, m),
    decreases t,
{
    if t > 0 {
        lemma_mat_pow_square(a, (t - 1) as nat, n, m);
        let aa = mat_mul_spec(a, a, n, m);
        lemma_mat_pow_shape(a, (2 * t - 2) as nat, n, m);
        if t == 1 {
            assert(mat_dims(identity_spec(n), n, n));
        }
        // a^(2t) == (a^(2t-2) * a) * a == a^(2t-2) * (a * a)
        lemma_mat_mul_assoc(mat_pow_spec(a, (2 * t - 2) as nat, n, m), a, a, n, n, n, m);
        assert(mat_pow_spec(a, 2 * t, n, m) == mat_mul_spec(
            mat_pow_spec(a, (2 * t - 1) as nat, n, m),
            a,
            n,
            m,
        ));
        assert((2 * t - 1) as nat >= 1);
        assert(mat_pow_spec(a, (2 * t - 1) as nat, n, m) == mat_mul_spec(
            mat_pow_spec(a, (2 * t - 2) as nat, n, m),
            a,
            n,
            m,
        ));
    }
}

/// One entry after a full pivot step: if the columns before the pivot
/// already looked like the identity, they still do, and the pivot column
/// has become a unit column.
proof fn lemma_elim_entry(
    shead: Seq<Seq<int>>,
    s1: Seq<Seq<int>>,
    s2: Seq<Seq<int>>,
    s3: Seq<Seq<int>>,
    rows: int,
    colss: int,
    m: int,
    r: int,
    rr: int,
    pc: int,
    fv: int,
    i: int,
    j: int,
)
    requires
        m >= 2,
        0 <= r < rows,
        r <= rr < rows,
        pc == r,
        pc < colss,
        id_cols(shead, rows, r),
        mat_reduced(s2, m),
        mat_dims(s2, rows, colss),
        forall|t: int|
            0 <= t < rows ==> #[trigger] s1[t] == (if t == r {
                shead[rr]
            } else if t == rr {
                shead[r]
            } else {
                shead[t]
            }),
        forall|t: int| 0 <= t < rows && t != r ==> #[trigger] s2[t] == s1[t],
        forall|j2: int| 0 <= j2 < colss ==> #[trigger] s2[r][j2] == (fv * s1[r][j2]) % m,
        s2[r][pc] == 1,
        forall|t: int| 0 <= t < rows && t == r ==> #[trigger] s3[t] == s2[t],
        forall|t: int, j2: int|
            0 <= t < rows && t != r && 0 <= j2 < colss ==> #[trigger] s3[t][j2] == (s2[t][j2] + ((m
                - s2[t][pc]) % m) * s2[r][j2]) % m,
        0 <= i < rows,
        0 <= j <= pc,
    ensures
        s3[i][j] == (if i == j {
            1int
        } else {
            0int
        }),
{
    if j < r {
        // the early identity columns pass through every operation unchanged
        assert(s1[i][j] == (if i == j {
            1int
        } else {
            0int
        }));
        assert(s2[r][j] == (fv * s1[r][j]) % m);
        assert(s1[r][j] == 0);
        assert(fv * 0 == 0) by (nonlinear_arith);
        lemma_small_mod(0nat, m as nat);
        assert(s2[r][j] == 0);
        if i == r {
            assert(s3[i][j] == 0);
        } else {
            let coeff = (m - s2[i][pc]) % m;
            assert(s3[i][j] == (s2[i][j] + coeff * 0) % m);
            assert(coeff * 0 == 0) by (nonlinear_arith);
            assert(s2[i][j] == s1[i][j]);
            if i == j {
                lemma_small_mod(1nat, m as nat);
            } else {
                lemma_small_mod(0nat, m as nat);
            }
        }
    } else {
        // the pivot column: 1 at the pivot row, eliminated elsewhere
        assert(j == pc);
        if i == r {
            assert(s3[i][j] == s2[r][pc] == 1);
        } else {
            let v = s2[i][pc];
            assert(0 <= v < m);
            let coeff = (m - v) % m;
            assert(s3[i][j] == (v + coeff * 1) % m);
            assert(coeff * 1 == coeff);
            if v == 0 {
                vstd::arithmetic::div_mod::lemma_mod_self_0(m);
                lemma_small_mod(0nat, m as nat);
                assert(s3[i][j] == 0);
            } else {
                lemma_small_mod((m - v) as nat, m as nat);
                assert(coeff == m - v);
                vstd::arithmetic::div_mod::lemma_mod_self_0(m);
                assert(s3[i][j] == 0);
            }
        }
    }
}

/// One entry after a full pivot step, below the pivot row: if the columns
/// before the pivot were zero from row `r` down, they stay zero there, and
/// the pivot column is cleared.
proof fn lemma_elim_zero_entry(
    shead: Seq<Seq<int>>,
    s1: Seq<Seq<int>>,
    s2: Seq<Seq<int>>,
    s3: Seq<Seq<int>>,
    rows: int,
    colss: int,
    m: int,
    r: int,
    rr: int,
    pc: int,
    fv: int,
    i: int,
    j: int,
)
    requires
        m >= 2,
        0 <= r < rows,
        r <= rr < rows,
        0 <= pc < colss,
        forall|i2: int, j2: int|
            r <= i2 < rows && 0 <= j2 < pc ==> #[trigger] shead[i2][j2] == 0,
        mat_reduced(s2, m),
        mat_dims(s2, rows, colss),
        forall|t: int|
            0 <= t < rows ==> #[trigger] s1[t] == (if t == r {
                shead[rr]
            } else if t == rr {
                shead[r]
            } else {
                shead[t]
            }),
        forall|t: int| 0 <= t < rows && t != r ==> #[trigger] s2[t] == s1[t],
        forall|j2: int| 0 <= j2 < colss ==> #[trigger] s2[r][j2] == (fv * s1[r][j2]) % m,
        s2[r][pc] == 1,
        forall|t: int| 0 <= t < rows && t == r ==> #[trigger] s3[t] == s2[t],
        forall|t: int, j2: int|
            0 <= t < rows && t != r && 0 <= j2 < colss ==> #[trigger] s3[t][j2] == (s2[t][j2] + ((m
                - s2[t][pc]) % m) * s2[r][j2]) % m,
        r + 1 <= i < rows,
        0 <= j <= pc,
    ensures
        s3[i][j] == 0,
{
    if j < pc {
        assert(s1[i][j] == 0);
        assert(s1[r][j] == 0);
        assert(s2[r][j] == (fv * 0) % m);
        assert(fv * 0 == 0) by (nonlinear_arith);
        lemma_small_mod(0nat, m as nat);
        assert(s2[i][j] == 0);
        let coeff = (m - s2[i][pc]) % m;
        assert(s3[i][j] == (0 + coeff * 0) % m);
        assert(coeff * 0 == 0) by (nonlinear_arith);
    } else {
        let v = s2[i][pc];
        assert(0 <= v < m);
        let coeff = (m - v) % m;
        assert(s3[i][j] == (v + coeff * 1) % m);
        assert(coeff * 1 == coeff);
        if v == 0 {
            vstd::arithmetic::div_mod::lemma_mod_self_0(m);
            lemma_small_mod(0nat, m as nat);
        } else {
            lemma_small_mod((m - v) as nat, m as nat);
            vstd::arithmetic::div_mod::lemma_mod_self_0(m);
        }
    }
}

impl Matrix {
    /// The grid of entries, as unbounded integers.
    pub closed spec fn view(self) -> Seq<Seq<int>> {
        Seq::new(
            self.rows as nat,
            |r: int| Seq::new(self.cols as nat, |c: int| self.data@[r * self.cols + c] as int),
        )
    }

    /// The number of rows.
    pub closed spec fn rows_spec(self) -> int {
        self.rows as int
    }

    /// The number of columns.
    pub closed spec fn cols_spec(self) -> int {
        self.cols as int
    }

    /// The modulus the entries live under.
    pub closed spec fn modulus_spec(self) -> int {
        self.modulus as int
    }

    /// The backing store has one cell per grid position, the modulus is a
    /// nontrivial one that keeps products within `u64`, and every entry is
    /// reduced.
    pub closed spec fn wf(self) -> bool {
        &&& self.data@.len() == self.rows_spec() * self.cols_spec()
        &&& self.rows_spec() * self.cols_spec() <= usize::MAX as int
        &&& 2 <= self.modulus_spec() <= 0xFFFF_FFFF
        &&& forall|t: int| 0 <= t < self.data@.len() ==> (#[trigger] self.data@[t]) < self.modulus
    }

    /// The well-formed view: dimensions match and entries are reduced.
    pub proof fn lemma_view_shape(self)
        requires
            self.wf(),
        ensures
            mat_dims(self.view(), self.rows_spec(), self.cols_spec()),
            mat_reduced(self.view(), self.modulus_spec()),
    {
        assert forall|r: int, c: int|
            0 <= r < self.view().len() && 0 <= c < self.view()[r].len() implies 0
            <= #[trigger] self.view()[r][c] < self.modulus_spec() by {
            lemma_rc(r, c, self.rows_spec(), self.cols_spec());
        }
    }

    /// Constructs a new matrix of dimensions `rows`x`cols` filled with zeros.
    pub fn new(rows: usize, cols: usize, modulus: u64) -> (r: Matrix)
        requires
            2 <= modulus <= 0xFFFF_FFFF,
            (rows as int) * (cols as int) <= usize::MAX as int,
        ensures
            r.wf(),
            r.rows_spec() == rows,
            r.cols_spec() == cols,
            r.modulus_spec() == modulus,
            forall|i: int, j: int| 0 <= i < rows && 0 <= j < cols ==> #[trigger] r.view()[i][j] == 0,
    {
        let mut data: Vec<u64> = Vec::new();
        proof {
            assert((rows as int) * (cols as int) >= 0) by (nonlinear_arith)
                requires rows >= 0 && cols >= 0;
        }
        let total = rows * cols;
        let mut z: usize = 0;
        while z < total
            invariant
                z <= total,
                data@.len() == z,
                forall|t: int| 0 <= t < z ==> data@[t] == 0u64,
            decreases total - z,
        {
            data.push(0u64);
            z = z + 1;
        }
        let r = Matrix { data, rows, cols, modulus };
        proof {
            assert forall|i: int, j: int| 0 <= i < rows && 0 <= j < cols implies #[trigger] r.view()[i][j]
                == 0 by {
                lemma_rc(i, j, rows as int, cols as int);
            }
        }
        r
    }

    /// Returns the element at location (`r`,`c`).
    pub fn get(&self, r: usize, c: usize) -> (v: u64)
        requires
            self.wf(),
            r < self.rows_spec(),
            c < self.cols_spec(),
        ensures
            v as int == self.view()[r as int][c as int],
            0 <= v < self.modulus_spec(),
    {
        proof {
            lemma_rc(r as int, c as int, self.rows_spec(), self.cols_spec());
        }
        self.data[r * self.cols + c]
    }

    /// Writes the element at location (`r`,`c`).
    pub fn set(&mut self, r: usize, c: usize, v: u64)
        requires
            old(self).wf(),
            r < old(self).rows_spec(),
            c < old(self).cols_spec(),
            v < old(self).modulus_spec(),
        ensures
            final(self).wf(),
            final(self).rows_spec() == old(self).rows_spec(),
            final(self).cols_spec() == old(self).cols_spec(),
            final(self).modulus_spec() == old(self).modulus_spec(),
            final(self).view() == old(self).view().update(
                r as int,
                old(self).view()[r as int].update(c as int, v as int),
            ),
    {
        proof {
            lemma_rc(r as int, c as int, self.rows_spec(), self.cols_spec());
        }
        let idx = r * self.cols + c;
        self.data.set(idx, v);
        proof {
            let nv = self.view();
            let ov = old(self).view();
            let tv = ov.update(r as int, ov[r as int].update(c as int, v as int));
            assert forall|i: int| 0 <= i < nv.len() implies nv[i] =~= tv[i] by {
                assert forall|j: int| 0 <= j < self.cols_spec() implies nv[i][j] == tv[i][j] by {
                    lemma_rc(i, j, self.rows_spec(), self.cols_spec());
                    if i * self.cols_spec() + j == r as int * self.cols_spec() + c as int {
                        lemma_rc_inj(i, j, r as int, c as int, self.cols_spec());
                    }
                }
            }
            assert(nv =~= tv);
        }
    }

    /// The entrywise sum modulo the common modulus.
    #[verifier::loop_isolation(false)]
    pub fn add(&self, other: &Matrix) -> (r: Matrix)
        requires
            self.wf(),
            other.wf(),
            self.rows_spec() == other.rows_spec(),
            self.cols_spec() == other.cols_spec(),
            self.modulus_spec() == other.modulus_spec(),
        ensures
            r.wf(),
            r.rows_spec() == self.rows_spec(),
            r.cols_spec() == self.cols_spec(),
            r.modulus_spec() == self.modulus_spec(),
            forall|i: int, j: int|
                0 <= i < self.rows_spec() && 0 <= j < self.cols_spec() ==> #[trigger] r.view()[i][j]
                    == (self.view()[i][j] + other.view()[i][j]) % self.modulus_spec(),
    {
        let mut res = Matrix::new(self.rows, self.cols, self.modulus);
        let mut i: usize = 0;
        while i < self.rows
            invariant
                res.wf(),
                res.rows_spec() == self.rows_spec(),
                res.cols_spec() == self.cols_spec(),
                res.modulus_spec() == self.modulus_spec(),
                i <= self.rows,
                forall|a: int, b: int|
                    0 <= a < i && 0 <= b < self.cols_spec() ==> #[trigger] res.view()[a][b] == (
                    self.view()[a][b] + other.view()[a][b]) % self.modulus_spec(),
            decreases self.rows - i,
        {
            let mut j: usize = 0;
            while j < self.cols
                invariant
                    res.wf(),
                    res.rows_spec() == self.rows_spec(),
                    res.cols_spec() == self.cols_spec(),
                    res.modulus_spec() == self.modulus_spec(),
                    i < self.rows,
                    j <= self.cols,
                    forall|a: int, b: int|
                        0 <= a < i && 0 <= b < self.cols_spec() ==> #[trigger] res.view()[a][b] == (
                        self.view()[a][b] + other.view()[a][b]) % self.modulus_spec(),
                    forall|b: int|
                        0 <= b < j ==> #[trigger] res.view()[i as int][b] == (self.view()[i as int][b]
                            + other.view()[i as int][b]) % self.modulus_spec(),
                decreases self.cols - j,
            {
                let v = (self.get(i, j) + other.get(i, j)) % self.modulus;
                res.set(i, j, v);
                j = j + 1;
            }
            i = i + 1;
        }
        res
    }

    /// The entrywise difference modulo the common modulus.
    #[verifier::loop_isolation(false)]
    pub fn sub(&self, other: &Matrix) -> (r: Matrix)
        requires
            self.wf(),
            other.wf(),
            self.rows_spec() == other.rows_spec(),
            self.cols_spec() == other.cols_spec(),
            self.modulus_spec() == other.modulus_spec(),
        ensures
            r.wf(),
            r.rows_spec() == self.rows_spec(),
            r.cols_spec() == self.cols_spec(),
            r.modulus_spec() == self.modulus_spec(),
            forall|i: int, j: int|
                0 <= i < self.rows_spec() && 0 <= j < self.cols_spec() ==> #[trigger] r.view()[i][j]
                    == (self.view()[i][j] - other.view()[i][j]) % self.modulus_spec(),
    {
        let mut res = Matrix::new(self.rows, self.cols, self.modulus);
        let mut i: usize = 0;
        while i < self.rows
            invariant
                res.wf(),
                res.rows_spec() == self.rows_spec(),
                res.cols_spec() == self.cols_spec(),
                res.modulus_spec() == self.modulus_spec(),
                i <= self.rows,
                forall|a: int, b: int|
                    0 <= a < i && 0 <= b < self.cols_spec() ==> #[trigger] res.view()[a][b] == (
                    self.view()[a][b] - other.view()[a][b]) % self.modulus_spec(),
            decreases self.rows - i,
        {
            let mut j: usize = 0;
            while j < self.cols
                invariant
                    res.wf(),
                    res.rows_spec() == self.rows_spec(),
                    res.cols_spec() == self.cols_spec(),
                    res.modulus_spec() == self.modulus_spec(),
                    i < self.rows,
                    j <= self.cols,
                    forall|a: int, b: int|
                        0 <= a < i && 0 <= b < self.cols_spec() ==> #[trigger] res.view()[a][b] == (
                        self.view()[a][b] - other.view()[a][b]) % self.modulus_spec(),
                    forall|b: int|
                        0 <= b < j ==> #[trigger] res.view()[i as int][b] == (self.view()[i as int][b]
                            - other.view()[i as int][b]) % self.modulus_spec(),
                decreases self.cols - j,
            {
                let v = (self.get(i, j) + self.modulus - other.get(i, j)) % self.modulus;
                proof {
                    let a = self.view()[i as int][j as int];
                    let b = other.view()[i as int][j as int];
                    let m = self.modulus_spec();
                    lemma_mod_multiples_vanish(1, a - b, m);
                    assert(a + m - b == a - b + m * 1);
                }
                res.set(i, j, v);
                j = j + 1;
            }
            i = i + 1;
        }
        res
    }

    /// The matrix product modulo the common modulus.
    #[verifier::loop_isolation(false)]
    pub fn mul(&self, other: &Matrix) -> (r: Matrix)
        requires
            self.wf(),
            other.wf(),
            self.cols_spec() == other.rows_spec(),
            self.modulus_spec() == other.modulus_spec(),
            self.rows_spec() * other.cols_spec() <= usize::MAX as int,
        ensures
            r.wf(),
            r.rows_spec() == self.rows_spec(),
            r.cols_spec() == other.cols_spec(),
            r.modulus_spec() == self.modulus_spec(),
            r.view() == mat_mul_spec(
                self.view(),
                other.view(),
                other.cols_spec(),
                self.modulus_spec(),
            ),
    {
        let ghost m = self.modulus_spec();
        let mut res = Matrix::new(self.rows, other.cols, self.modulus);
        let mut i: usize = 0;
        while i < self.rows
            invariant
                res.wf(),
                res.rows_spec() == self.rows_spec(),
                res.cols_spec() == other.cols_spec(),
                res.modulus_spec() == m,
                i <= self.rows,
                forall|a: int, b: int|
                    0 <= a < i && 0 <= b < other.cols_spec() ==> #[trigger] res.view()[a][b] == dotc(
                        self.view()[a],
                        other.view(),
                        b,
                        self.cols_spec(),
                    ) % m,
            decreases self.rows - i,
        {
            let mut j: usize = 0;
            while j < other.cols
                invariant
                    res.wf(),
                    res.rows_spec() == self.rows_spec(),
                    res.cols_spec() == other.cols_spec(),
                    res.modulus_spec() == m,
                    i < self.rows,
                    j <= other.cols,
                    forall|a: int, b: int|
                        0 <= a < i && 0 <= b < other.cols_spec() ==> #[trigger] res.view()[a][b]
                            == dotc(self.view()[a], other.view(), b, self.cols_spec()) % m,
                    forall|b: int|
                        0 <= b < j ==> #[trigger] res.view()[i as int][b] == dotc(
                            self.view()[i as int],
                            other.view(),
                            b,
                            self.cols_spec(),
                        ) % m,
                decreases other.cols - j,
            {
                let mut acc: u64 = 0;
                let mut k: usize = 0;
                proof {
                    lemma_small_mod(0nat, m as nat);
                }
                while k < self.cols
                    invariant
                        res.wf(),
                        i < self.rows,
                        j < other.cols,
                        k <= self.cols,
                        acc < self.modulus,
                        acc as int == dotc(
                            self.view()[i as int],
                            other.view(),
                            j as int,
                            k as int,
                        ) % m,
                    decreases self.cols - k,
                {
                    let x = self.get(i, k);
                    let y = other.get(k, j);
                    proof {
                        assert((x as int) * (y as int) <= 0xFFFF_FFFEi64 * 0xFFFF_FFFEi64)
                            by (nonlinear_arith)
                            requires
                                0 <= (x as int) <= 0xFFFF_FFFE,
                                0 <= (y as int) <= 0xFFFF_FFFE,
                        ;
                        assert((x as int) * (y as int) >= 0) by (nonlinear_arith)
                            requires 0 <= (x as int) && 0 <= (y as int);
                        lemma_mod_add_left(
                            dotc(self.view()[i as int], other.view(), j as int, k as int),
                            (x as int) * (y as int),
                            m,
                        );
                        lemma_mod_bound(
                            dotc(self.view()[i as int], other.view(), j as int, k as int) + (
                            x as int) * (y as int),
                            m,
                        );
                        assert(self.view()[i as int][k as int] == x as int);
                        assert(other.view()[k as int][j as int] == y as int);
                    }
                    acc = (acc + x * y) % self.modulus;
                    k = k + 1;
                }
                res.set(i, j, acc);
                j = j + 1;
            }
            i = i + 1;
        }
        proof {
            let target = mat_mul_spec(self.view(), other.view(), other.cols_spec(), m);
            assert forall|a: int| 0 <= a < self.rows_spec() implies res.view()[a] =~= target[a] by {}
            assert(res.view() =~= target);
        }
        res
    }

    /// Swaps two distinct rows in place.
    #[verifier::loop_isolation(false)]
    fn swap_rows(&mut self, r1: usize, r2: usize)
        requires
            old(self).wf(),
            r1 < old(self).rows_spec(),
            r2 < old(self).rows_spec(),
            r1 != r2,
        ensures
            final(self).wf(),
            final(self).rows_spec() == old(self).rows_spec(),
            final(self).cols_spec() == old(self).cols_spec(),
            final(self).modulus_spec() == old(self).modulus_spec(),
            final(self).view() == old(self).view().update(r1 as int, old(self).view()[r2 as int]).update(
                r2 as int,
                old(self).view()[r1 as int],
            ),
    {
        let mut i: usize = 0;
        while i < self.cols
            invariant
                self.wf(),
                self.rows_spec() == old(self).rows_spec(),
                self.cols_spec() == old(self).cols_spec(),
                self.modulus_spec() == old(self).modulus_spec(),
                i <= self.cols,
                forall|t: int|
                    0 <= t < self.rows_spec() && t != r1 && t != r2 ==> #[trigger] self.view()[t]
                        == old(self).view()[t],
                forall|j: int|
                    0 <= j < self.cols_spec() ==> #[trigger] self.view()[r1 as int][j] == (if j < i {
                        old(self).view()[r2 as int][j]
                    } else {
                        old(self).view()[r1 as int][j]
                    }),
                forall|j: int|
                    0 <= j < self.cols_spec() ==> #[trigger] self.view()[r2 as int][j] == (if j < i {
                        old(self).view()[r1 as int][j]
                    } else {
                        old(self).view()[r2 as int][j]
                    }),
            decreases self.cols - i,
        {
            let a = self.get(r1, i);
            let b = self.get(r2, i);
            self.set(r1, i, b);
            self.set(r2, i, a);
            i = i + 1;
        }
        proof {
            let target = old(self).view().update(r1 as int, old(self).view()[r2 as int]).update(
                r2 as int,
                old(self).view()[r1 as int],
            );
            assert forall|t: int| 0 <= t < self.rows_spec() implies self.view()[t] =~= target[t] by {}
            assert(self.view() =~= target);
        }
    }

    /// Multiplies one row through by a constant, in place.
    #[verifier::loop_isolation(false)]
    fn scale_row(&mut self, r: usize, f: u64)
        requires
            old(self).wf(),
            r < old(self).rows_spec(),
            f < old(self).modulus_spec(),
        ensures
            final(self).wf(),
            final(self).rows_spec() == old(self).rows_spec(),
            final(self).cols_spec() == old(self).cols_spec(),
            final(self).modulus_spec() == old(self).modulus_spec(),
            forall|t: int|
                0 <= t < old(self).rows_spec() && t != r ==> #[trigger] final(self).view()[t] == old(
                    self,
                ).view()[t],
            forall|j: int|
                0 <= j < old(self).cols_spec() ==> #[trigger] final(self).view()[r as int][j] == ((
                f as int) * old(self).view()[r as int][j]) % old(self).modulus_spec(),
    {
        let mut i: usize = 0;
        while i < self.cols
            invariant
                self.wf(),
                self.rows_spec() == old(self).rows_spec(),
                self.cols_spec() == old(self).cols_spec(),
                self.modulus_spec() == old(self).modulus_spec(),
                i <= self.cols,
                forall|t: int|
                    0 <= t < self.rows_spec() && t != r ==> #[trigger] self.view()[t] == old(
                        self,
                    ).view()[t],
                forall|j: int|
                    0 <= j < self.cols_spec() ==> #[trigger] self.view()[r as int][j] == (if j < i {
                        ((f as int) * old(self).view()[r as int][j]) % old(self).modulus_spec()
                    } else {
                        old(self).view()[r as int][j]
                    }),
            decreases self.cols - i,
        {
            let v = self.get(r, i);
            proof {
                assert((f as int) * (v as int) <= 0xFFFF_FFFEi64 * 0xFFFF_FFFEi64)
                    by (nonlinear_arith)
                    requires
                        0 <= (f as int) <= 0xFFFF_FFFE,
                        0 <= (v as int) <= 0xFFFF_FFFE,
                ;
                assert((f as int) * (v as int) >= 0) by (nonlinear_arith)
                    requires 0 <= (f as int) && 0 <= (v as int);
                lemma_mod_bound((f as int) * (v as int), self.modulus_spec());
            }
            let w = (f * v) % self.modulus;
            self.set(r, i, w);
            i = i + 1;
        }
    }

    /// Adds a multiple of row `src` into row `dst`, in place.
    #[verifier::loop_isolation(false)]
    fn addmul_row(&mut self, dst: usize, src: usize, f: u64)
        requires
            old(self).wf(),
            dst < old(self).rows_spec(),
            src < old(self).rows_spec(),
            dst != src,
            f < old(self).modulus_spec(),
        ensures
            final(self).wf(),
            final(self).rows_spec() == old(self).rows_spec(),
            final(self).cols_spec() == old(self).cols_spec(),
            final(self).modulus_spec() == old(self).modulus_spec(),
            forall|t: int|
                0 <= t < old(self).rows_spec() && t != dst ==> #[trigger] final(self).view()[t]
                    == old(self).view()[t],
            forall|j: int|
                0 <= j < old(self).cols_spec() ==> #[trigger] final(self).view()[dst as int][j] == (
                old(self).view()[dst as int][j] + (f as int) * old(self).view()[src as int][j]) % old(
                    self,
                ).modulus_spec(),
    {
        let mut i: usize = 0;
        while i < self.cols
            invariant
                self.wf(),
                self.rows_spec() == old(self).rows_spec(),
                self.cols_spec() == old(self).cols_spec(),
                self.modulus_spec() == old(self).modulus_spec(),
                i <= self.cols,
                forall|t: int|
                    0 <= t < self.rows_spec() && t != dst ==> #[trigger] self.view()[t] == old(
                        self,
                    ).view()[t],
                forall|j: int|
                    0 <= j < self.cols_spec() ==> #[trigger] self.view()[dst as int][j] == (if j
                        < i {
                        (old(self).view()[dst as int][j] + (f as int) * old(self).view()[src as int][j])
                            % old(self).modulus_spec()
                    } else {
                        old(self).view()[dst as int][j]
                    }),
            decreases self.cols - i,
        {
            let d = self.get(dst, i);
            let s = self.get(src, i);
            proof {
                assert((f as int) * (s as int) <= 0xFFFF_FFFEi64 * 0xFFFF_FFFEi64)
                    by (nonlinear_arith)
                    requires
                        0 <= (f as int) <= 0xFFFF_FFFE,
                        0 <= (s as int) <= 0xFFFF_FFFE,
                ;
                assert((f as int) * (s as int) >= 0) by (nonlinear_arith)
                    requires 0 <= (f as int) && 0 <= (s as int);
                lemma_mod_add_left((f as int) * (s as int), d as int, self.modulus_spec());
                lemma_mod_bound(d as int + (f as int) * (s as int), self.modulus_spec());
            }
            let w = (d + (f * s) % self.modulus) % self.modulus;
            self.set(dst, i, w);
            i = i + 1;
        }
    }

    /// An identical copy of the matrix.
    pub fn duplicate(&self) -> (r: Matrix)
        requires
            self.wf(),
        ensures
            r.wf(),
            r.rows_spec() == self.rows_spec(),
            r.cols_spec() == self.cols_spec(),
            r.modulus_spec() == self.modulus_spec(),
            r.view() == self.view(),
    {
        let mut data: Vec<u64> = Vec::new();
        let mut z: usize = 0;
        let total = self.data.len();
        while z < total
            invariant
                z <= total,
                total == self.data@.len(),
                data@.len() == z,
                forall|t: int| 0 <= t < z ==> data@[t] == self.data@[t],
            decreases total - z,
        {
            let v = self.data[z];
            data.push(v);
            z = z + 1;
        }
        let r = Matrix { data, rows: self.rows, cols: self.cols, modulus: self.modulus };
        proof {
            assert(r.data@ =~= self.data@);
            assert(r.view() =~= self.view());
        }
        r
    }

    /// Performs row operations on the matrix, bringing it to reduced
    /// row-echelon form, and does the same operations to `augmented`.
    ///
    /// Returns the rank of the matrix: the number of pivot rows found, below
    /// which every row ends up zero. A square matrix of full returned rank is
    /// reduced to the identity, and a square matrix with a right inverse
    /// always reaches full rank. One right-invertible matrix of row
    /// operations carries the old pair to the new pair, so whatever product
    /// relation tied `augmented` to this matrix before the call still ties
    /// them after it.
    #[verifier::loop_isolation(false)]
    #[verifier::rlimit(100)]
    pub fn gaussian_elimination(&mut self, augmented: &mut Matrix) -> (rank: usize)
        requires
            old(self).wf(),
            old(augmented).wf(),
            old(augmented).rows_spec() == old(self).rows_spec(),
            old(augmented).modulus_spec() == old(self).modulus_spec(),
            crate::arith::is_prime(old(self).modulus_spec()),
        ensures
            final(self).wf(),
            final(augmented).wf(),
            final(self).rows_spec() == old(self).rows_spec(),
            final(self).cols_spec() == old(self).cols_spec(),
            final(self).modulus_spec() == old(self).modulus_spec(),
            final(augmented).rows_spec() == old(augmented).rows_spec(),
            final(augmented).cols_spec() == old(augmented).cols_spec(),
            final(augmented).modulus_spec() == old(augmented).modulus_spec(),
            rank <= old(self).rows_spec(),
            rank == old(self).rows_spec() && old(self).rows_spec() == old(self).cols_spec()
                ==> final(self).view() == identity_spec(old(self).rows_spec()),
            forall|i: int, j: int|
                rank <= i < old(self).rows_spec() && 0 <= j < old(self).cols_spec()
                    ==> #[trigger] final(self).view()[i][j] == 0,
            old(self).rows_spec() == old(self).cols_spec() && (exists|w: Seq<Seq<int>>|
                mat_dims(w, old(self).rows_spec(), old(self).rows_spec()) && #[trigger] mat_mul_spec(
                    old(self).view(),
                    w,
                    old(self).rows_spec(),
                    old(self).modulus_spec(),
                ) == identity_spec(old(self).rows_spec())) ==> rank == old(self).rows_spec(),
            exists|e: Seq<Seq<int>>, ei: Seq<Seq<int>>|
                mat_dims(e, old(self).rows_spec(), old(self).rows_spec()) && mat_dims(
                    ei,
                    old(self).rows_spec(),
                    old(self).rows_spec(),
                ) && #[trigger] mat_mul_spec(e, ei, old(self).rows_spec(), old(self).modulus_spec())
                    == identity_spec(old(self).rows_spec()) && #[trigger] mat_mul_spec(
                    e,
                    old(self).view(),
                    old(self).cols_spec(),
                    old(self).modulus_spec(),
                ) == final(self).view() && mat_mul_spec(
                    e,
                    old(augmented).view(),
                    old(augmented).cols_spec(),
                    old(self).modulus_spec(),
                ) == final(augmented).view(),
            forall|x: Seq<Seq<int>>|
                x.len() == old(augmented).cols_spec() && #[trigger] mat_mul_spec(
                    old(augmented).view(),
                    x,
                    old(self).cols_spec(),
                    old(self).modulus_spec(),
                ) == old(self).view() ==> mat_mul_spec(
                    final(augmented).view(),
                    x,
                    old(self).cols_spec(),
                    old(self).modulus_spec(),
                ) == final(self).view(),
    {
        let ghost m = old(self).modulus_spec();
        let ghost colss = old(self).cols_spec();
        let ghost colsa = old(augmented).cols_spec();
        let rows = self.rows;
        let ghost aorig = old(self).view();
        let ghost aaug = old(augmented).view();
        let ghost mut ge = identity_spec(rows as int);
        let ghost mut gei = identity_spec(rows as int);
        proof {
            old(self).lemma_view_shape();
            old(augmented).lemma_view_shape();
            assert(mat_dims(ge, rows as int, rows as int));
            assert(mat_reduced(ge, m));
            lemma_mul_identity(aorig, rows as int, colss, m);
            lemma_mul_identity(aaug, rows as int, colsa, m);
            lemma_mul_identity(gei, rows as int, rows as int, m);
        }
        let mut c: usize = 0;
        let mut r: usize = 0;
        while r < rows
            invariant
                self.wf(),
                augmented.wf(),
                self.rows_spec() == old(self).rows_spec(),
                self.cols_spec() == old(self).cols_spec(),
                self.modulus_spec() == old(self).modulus_spec(),
                augmented.rows_spec() == old(augmented).rows_spec(),
                augmented.cols_spec() == old(augmented).cols_spec(),
                augmented.modulus_spec() == old(augmented).modulus_spec(),
                r <= rows,
                r as int <= c as int,
                c <= self.cols,
                (c as int == r as int) ==> id_cols(self.view(), rows as int, c as int),
                forall|i: int, j: int|
                    r as int <= i < rows as int && 0 <= j < c as int
                        ==> #[trigger] self.view()[i][j] == 0,
                mat_dims(ge, rows as int, rows as int),
                mat_reduced(ge, m),
                mat_dims(gei, rows as int, rows as int),
                mat_reduced(gei, m),
                mat_mul_spec(ge, aorig, colss, m) == self.view(),
                mat_mul_spec(ge, aaug, colsa, m) == augmented.view(),
                mat_mul_spec(ge, gei, rows as int, m) == identity_spec(rows as int),
                forall|x: Seq<Seq<int>>|
                    x.len() == colsa && #[trigger] mat_mul_spec(old(augmented).view(), x, colss, m)
                        == old(self).view() ==> mat_mul_spec(augmented.view(), x, colss, m)
                        == self.view(),
            decreases rows - r,
        {
            let ghost c0 = c as int;
            let ghost shead = self.view();
            let mut rr = rows;
            while c < self.cols && rr == rows
                invariant
                    c0 <= c as int <= self.cols_spec(),
                    r <= rr <= rows,
                    rr < rows ==> c0 < c as int && self.view()[rr as int][c as int - 1] != 0,
                    forall|i: int, j: int|
                        r as int <= i < rows as int && c0 <= j && j < (c as int) - (if rr < rows {
                            1int
                        } else {
                            0int
                        }) ==> #[trigger] self.view()[i][j] == 0,
                decreases self.cols_spec() - c,
            {
                rr = r;
                while rr < rows && self.get(rr, c) == 0
                    invariant
                        r <= rr <= rows,
                        c < self.cols,
                        forall|i: int|
                            r as int <= i < rr as int ==> #[trigger] self.view()[i][c as int] == 0,
                    decreases rows - rr,
                {
                    rr = rr + 1;
                }
                c = c + 1;
            }
            if rr == rows {
                proof {
                    assert(c as int == colss);
                    let nn = rows as int;
                    if nn == colss && (exists|w: Seq<Seq<int>>|
                        mat_dims(w, nn, nn) && #[trigger] mat_mul_spec(aorig, w, nn, m)
                            == identity_spec(nn)) {
                        let w = choose|w: Seq<Seq<int>>|
                            mat_dims(w, nn, nn) && #[trigger] mat_mul_spec(aorig, w, nn, m)
                                == identity_spec(nn);
                        let u = ge[r as int];
                        let pseq = Seq::new(nn as nat, |k: int| dotc(u, aorig, k, nn));
                        let zrow = Seq::new(nn as nat, |k: int| 0int);
                        lemma_small_mod(0nat, m as nat);
                        assert forall|k: int| 0 <= k < nn implies #[trigger] (pseq[k] % m)
                            == zrow[k] % m by {
                            assert(self.view()[r as int][k] == dotc(u, aorig, k, nn) % m);
                            assert(self.view()[r as int][k] == 0);
                        }
                        assert forall|j: int| 0 <= j < nn implies u[j] == 0 by {
                            let awu = Seq::new(
                                nn as nat,
                                |k: int| Seq::new(nn as nat, |t: int| dotc(aorig[k], w, t, nn)),
                            );
                            lemma_dot_swap(u, aorig, w, pseq, awu, j, nn, nn);
                            lemma_dot_cong_row(pseq, zrow, w, j, nn, m);
                            lemma_dot_zero_row(zrow, w, j, nn);
                            assert forall|k: int| 0 <= k < nn implies #[trigger] (awu[k][j] % m)
                                == identity_spec(nn)[k][j] % m by {
                                vstd::arithmetic::div_mod::lemma_mod_twice(awu[k][j], m);
                                assert(mat_mul_spec(aorig, w, nn, m)[k][j] == awu[k][j] % m);
                                lemma_small_mod(identity_spec(nn)[k][j] as nat, m as nat);
                            }
                            lemma_dot_cong_grid(u, awu, identity_spec(nn), j, nn, m);
                            assert forall|k: int| 0 <= k < nn implies #[trigger] identity_spec(
                                nn,
                            )[k][j] == (if k == j {
                                1int
                            } else {
                                0int
                            }) by {}
                            lemma_dot_unit_grid(u, identity_spec(nn), j, nn);
                            assert(u[j] % m == 0);
                            lemma_small_mod(u[j] as nat, m as nat);
                        }
                        lemma_dot_zero_row(u, gei, r as int, nn);
                        assert(mat_mul_spec(ge, gei, nn, m)[r as int][r as int] == dotc(
                            u,
                            gei,
                            r as int,
                            nn,
                        ) % m);
                        assert(identity_spec(nn)[r as int][r as int] == 1);
                        assert(false);
                    }
                }
                proof {
                    assert(mat_dims(ge, rows as int, rows as int) && mat_dims(
                        gei,
                        rows as int,
                        rows as int,
                    ) && mat_mul_spec(ge, gei, rows as int, m) == identity_spec(rows as int)
                        && mat_mul_spec(ge, aorig, colss, m) == self.view() && mat_mul_spec(
                        ge,
                        aaug,
                        colsa,
                        m,
                    ) == augmented.view());
                }
                return r;
            }
            let pc = c - 1;
            let ghost s0 = self.view();
            let ghost a0 = augmented.view();
            proof {
                self.lemma_view_shape();
                augmented.lemma_view_shape();
                assert forall|i: int, j: int|
                    r as int <= i < rows as int && 0 <= j < pc as int
                        implies #[trigger] s0[i][j] == 0 by {}
            }
            if rr > r {
                self.swap_rows(r, rr);
                augmented.swap_rows(r, rr);
                proof {
                    let nn = rows as int;
                    let opm = swap_mat(nn, r as int, rr as int);
                    lemma_swap_inv(nn, r as int, rr as int, m);
                    lemma_mat_mul_assoc(opm, ge, aorig, nn, nn, colss, m);
                    lemma_swap_action(nn, r as int, rr as int, s0, colss, m);
                    assert(mat_mul_spec(mat_mul_spec(opm, ge, nn, m), aorig, colss, m)
                        == self.view());
                    lemma_mat_mul_assoc(opm, ge, aaug, nn, nn, colsa, m);
                    lemma_swap_action(nn, r as int, rr as int, a0, colsa, m);
                    assert(mat_mul_spec(mat_mul_spec(opm, ge, nn, m), aaug, colsa, m)
                        == augmented.view());
                    lemma_mat_mul_assoc(ge, gei, opm, nn, nn, nn, m);
                    lemma_mul_identity(opm, nn, nn, m);
                    assert(mat_mul_spec(ge, mat_mul_spec(gei, opm, nn, m), nn, m) == opm);
                    lemma_mat_mul_shape(gei, opm, nn, m);
                    lemma_mat_mul_assoc(opm, ge, mat_mul_spec(gei, opm, nn, m), nn, nn, nn, m);
                    assert(mat_mul_spec(
                        mat_mul_spec(opm, ge, nn, m),
                        mat_mul_spec(gei, opm, nn, m),
                        nn,
                        m,
                    ) == identity_spec(nn));
                    lemma_mat_mul_shape(opm, ge, nn, m);
                    ge = mat_mul_spec(opm, ge, nn, m);
                    gei = mat_mul_spec(gei, opm, nn, m);
                }
            }
            let ghost s1 = self.view();
            let ghost a1 = augmented.view();
            proof {
                assert forall|x: Seq<Seq<int>>|
                    x.len() == colsa && #[trigger] mat_mul_spec(old(augmented).view(), x, colss, m)
                        == old(self).view() implies mat_mul_spec(a1, x, colss, m) == s1 by {
                    let p0 = mat_mul_spec(a0, x, colss, m);
                    let p1 = mat_mul_spec(a1, x, colss, m);
                    assert(p0 == s0);
                    assert forall|t: int| 0 <= t < rows implies p1[t] =~= s1[t] by {
                        assert(a1[t] == (if rr > r && t == r as int {
                            a0[rr as int]
                        } else if rr > r && t == rr as int {
                            a0[r as int]
                        } else {
                            a0[t]
                        }));
                    }
                    assert(p1 =~= s1);
                }
                assert(s1[r as int][pc as int] != 0);
            }
            let pivot = self.get(r, pc);
            let pv = pivot as i64;
            let mi = self.modulus as i64;
            let inv_opt = crate::modint::mod_inverse(pv, mi);
            let invu: u64 = match inv_opt {
                Some(x) => x as u64,
                None => {
                    proof {
                        if crate::arith::divides(m, pivot as int) {
                            crate::arith::lemma_divides_le(m, pivot as int);
                        }
                        let (bx, by) = crate::arith::lemma_coprime_unit(m, pivot as int);
                        lemma_mod_multiples_vanish(by, (pivot as int) * bx, m);
                        assert((pivot as int) * bx + m * by == 1);
                        assert(((pivot as int) * bx) % m == 1int % m);
                        assert(false);
                    }
                    vstd::pervasive::unreached()
                },
            };
            let ghost fv = invu as int;
            proof {
                lemma_small_mod(1nat, m as nat);
                assert(((pivot as int) * fv) % m == 1int % m);
                assert(fv * (pivot as int) == (pivot as int) * fv) by (nonlinear_arith);
                assert((fv * (pivot as int)) % m == 1);
            }
            proof {
                self.lemma_view_shape();
                augmented.lemma_view_shape();
            }
            self.scale_row(r, invu);
            augmented.scale_row(r, invu);
            let ghost s2 = self.view();
            let ghost a2 = augmented.view();
            proof {
                assert forall|x: Seq<Seq<int>>|
                    x.len() == colsa && #[trigger] mat_mul_spec(old(augmented).view(), x, colss, m)
                        == old(self).view() implies mat_mul_spec(a2, x, colss, m) == s2 by {
                    let p1 = mat_mul_spec(a1, x, colss, m);
                    let p2 = mat_mul_spec(a2, x, colss, m);
                    assert(p1 == s1);
                    assert forall|t: int| 0 <= t < rows implies p2[t] =~= s2[t] by {
                        if t == r as int {
                            assert forall|cc: int| 0 <= cc < colss implies p2[t][cc] == s2[t][cc] by {
                                lemma_dot_scale(a1[t], a2[t], x, cc, x.len() as int, fv, m);
                                lemma_mul_mod_noop_general(fv, dotc(a1[t], x, cc, x.len() as int), m);
                                assert(s2[t][cc] == (fv * s1[t][cc]) % m);
                                lemma_mul_mod_noop_general(fv, s1[t][cc], m);
                            }
                        } else {
                            assert(a2[t] == a1[t]);
                        }
                    }
                    assert(p2 =~= s2);
                }
                assert(s2[r as int][pc as int] == (fv * (pivot as int)) % m);
                assert(s2[r as int][pc as int] == 1);
                self.lemma_view_shape();
                assert(mat_reduced(s2, m));
                assert(mat_dims(s2, rows as int, colss));
                assert forall|t: int| 0 <= t < rows implies s1[t] == (if t == r as int {
                    shead[rr as int]
                } else if t == rr as int {
                    shead[r as int]
                } else {
                    shead[t]
                }) by {}
                // fold the normalization into the tracked row-operation matrix
                let nn = rows as int;
                let opm = scale_mat(nn, r as int, fv);
                let opi = scale_mat(nn, r as int, pivot as int);
                lemma_scale_inv(nn, r as int, fv, pivot as int, m);
                assert(mat_dims(opi, nn, nn));
                assert(mat_reduced(opi, m));
                lemma_mat_mul_assoc(opm, ge, aorig, nn, nn, colss, m);
                lemma_scale_action(nn, r as int, fv, s1, colss, m);
                assert(s1.update(r as int, Seq::new(colss as nat, |cc: int| (fv * s1[r as int][cc]) % m))
                    =~= s2) by {
                    assert forall|t: int| 0 <= t < rows implies s1.update(
                        r as int,
                        Seq::new(colss as nat, |cc: int| (fv * s1[r as int][cc]) % m),
                    )[t] =~= s2[t] by {}
                }
                assert(mat_mul_spec(mat_mul_spec(opm, ge, nn, m), aorig, colss, m) == s2);
                lemma_mat_mul_assoc(opm, ge, aaug, nn, nn, colsa, m);
                lemma_scale_action(nn, r as int, fv, a1, colsa, m);
                assert(a1.update(r as int, Seq::new(colsa as nat, |cc: int| (fv * a1[r as int][cc]) % m))
                    =~= a2) by {
                    assert forall|t: int| 0 <= t < rows implies a1.update(
                        r as int,
                        Seq::new(colsa as nat, |cc: int| (fv * a1[r as int][cc]) % m),
                    )[t] =~= a2[t] by {}
                }
                assert(mat_mul_spec(mat_mul_spec(opm, ge, nn, m), aaug, colsa, m) == a2);
                lemma_mat_mul_assoc(ge, gei, opi, nn, nn, nn, m);
                lemma_mul_identity(opi, nn, nn, m);
                assert(mat_mul_spec(ge, mat_mul_spec(gei, opi, nn, m), nn, m) == opi);
                lemma_mat_mul_shape(gei, opi, nn, m);
                lemma_mat_mul_assoc(opm, ge, mat_mul_spec(gei, opi, nn, m), nn, nn, nn, m);
                assert(mat_mul_spec(
                    mat_mul_spec(opm, ge, nn, m),
                    mat_mul_spec(gei, opi, nn, m),
                    nn,
                    m,
                ) == identity_spec(nn));
                lemma_mat_mul_shape(opm, ge, nn, m);
                ge = mat_mul_spec(opm, ge, nn, m);
                gei = mat_mul_spec(gei, opi, nn, m);
            }
            let mut rr2: usize = 0;
            while rr2 < rows
                invariant
                    self.wf(),
                    augmented.wf(),
                    self.rows_spec() == old(self).rows_spec(),
                    self.cols_spec() == old(self).cols_spec(),
                    self.modulus_spec() == old(self).modulus_spec(),
                    augmented.rows_spec() == old(augmented).rows_spec(),
                    augmented.cols_spec() == old(augmented).cols_spec(),
                    augmented.modulus_spec() == old(augmented).modulus_spec(),
                    rr2 <= rows,
                    r < rows,
                    pc < self.cols,
                    s2[r as int][pc as int] == 1,
                    mat_dims(ge, rows as int, rows as int),
                    mat_reduced(ge, m),
                    mat_dims(gei, rows as int, rows as int),
                    mat_reduced(gei, m),
                    mat_mul_spec(ge, aorig, colss, m) == self.view(),
                    mat_mul_spec(ge, aaug, colsa, m) == augmented.view(),
                    mat_mul_spec(ge, gei, rows as int, m) == identity_spec(rows as int),
                    forall|t: int|
                        0 <= t < rows && (t == r as int || t >= rr2 as int)
                            ==> #[trigger] self.view()[t] == s2[t],
                    forall|t: int|
                        0 <= t < rows && (t == r as int || t >= rr2 as int)
                            ==> #[trigger] augmented.view()[t] == a2[t],
                    forall|t: int, j: int|
                        0 <= t < rr2 as int && t != r as int && 0 <= j < colss
                            ==> #[trigger] self.view()[t][j] == (s2[t][j] + ((m - s2[t][pc as int])
                            % m) * s2[r as int][j]) % m,
                    forall|x: Seq<Seq<int>>|
                        x.len() == colsa && #[trigger] mat_mul_spec(
                            old(augmented).view(),
                            x,
                            colss,
                            m,
                        ) == old(self).view() ==> mat_mul_spec(augmented.view(), x, colss, m)
                            == self.view(),
                decreases rows - rr2,
            {
                if rr2 != r {
                    let v = self.get(rr2, pc);
                    let coeff = (self.modulus - v) % self.modulus;
                    let ghost sp = self.view();
                    let ghost ap = augmented.view();
                    proof {
                        self.lemma_view_shape();
                        augmented.lemma_view_shape();
                    }
                    self.addmul_row(rr2, r, coeff);
                    augmented.addmul_row(rr2, r, coeff);
                    proof {
                        assert forall|x: Seq<Seq<int>>|
                            x.len() == colsa && #[trigger] mat_mul_spec(
                                old(augmented).view(),
                                x,
                                colss,
                                m,
                            ) == old(self).view() implies mat_mul_spec(
                            augmented.view(),
                            x,
                            colss,
                            m,
                        ) == self.view() by {
                            let pp = mat_mul_spec(ap, x, colss, m);
                            let pn = mat_mul_spec(augmented.view(), x, colss, m);
                            assert(pp == sp);
                            assert forall|t: int| 0 <= t < rows implies pn[t] =~= self.view()[t] by {
                                if t == rr2 as int {
                                    assert forall|cc: int| 0 <= cc < colss implies pn[t][cc]
                                        == self.view()[t][cc] by {
                                        lemma_dot_addmul(
                                            ap[t],
                                            ap[r as int],
                                            augmented.view()[t],
                                            x,
                                            cc,
                                            x.len() as int,
                                            coeff as int,
                                            m,
                                        );
                                        vstd::arithmetic::div_mod::lemma_add_mod_noop(
                                            dotc(ap[t], x, cc, x.len() as int),
                                            (coeff as int) * dotc(ap[r as int], x, cc, x.len() as int),
                                            m,
                                        );
                                        lemma_mul_mod_noop_general(
                                            coeff as int,
                                            dotc(ap[r as int], x, cc, x.len() as int),
                                            m,
                                        );
                                        assert(sp[t][cc] == pp[t][cc] && sp[r as int][cc] == pp[r as int][cc]);
                                        vstd::arithmetic::div_mod::lemma_add_mod_noop(
                                            sp[t][cc],
                                            (coeff as int) * sp[r as int][cc],
                                            m,
                                        );
                                        lemma_mul_mod_noop_general(coeff as int, sp[r as int][cc], m);
                                        lemma_small_mod(sp[t][cc] as nat, m as nat);
                                    }
                                } else {
                                    assert(augmented.view()[t] == ap[t]);
                                }
                            }
                            assert(pn =~= self.view());
                        }
                        // fold the row elimination into the tracked matrix
                        let nn = rows as int;
                        let fc = coeff as int;
                        let opm = axpy_mat(nn, rr2 as int, r as int, fc);
                        lemma_axpy_inv(nn, rr2 as int, r as int, fc, m);
                        let opi = axpy_mat(nn, rr2 as int, r as int, (m - fc) % m);
                        lemma_mod_bound(m - fc, m);
                        assert(mat_dims(opi, nn, nn));
                        assert(mat_reduced(opi, m));
                        lemma_mat_mul_assoc(opm, ge, aorig, nn, nn, colss, m);
                        lemma_axpy_action(nn, rr2 as int, r as int, fc, sp, colss, m);
                        assert(sp.update(
                            rr2 as int,
                            Seq::new(colss as nat, |cc: int| (sp[rr2 as int][cc] + fc * sp[r as int][cc]) % m),
                        ) =~= self.view()) by {
                            assert forall|t: int| 0 <= t < rows implies sp.update(
                                rr2 as int,
                                Seq::new(
                                    colss as nat,
                                    |cc: int| (sp[rr2 as int][cc] + fc * sp[r as int][cc]) % m,
                                ),
                            )[t] =~= self.view()[t] by {}
                        }
                        assert(mat_mul_spec(mat_mul_spec(opm, ge, nn, m), aorig, colss, m)
                            == self.view());
                        lemma_mat_mul_assoc(opm, ge, aaug, nn, nn, colsa, m);
                        lemma_axpy_action(nn, rr2 as int, r as int, fc, ap, colsa, m);
                        assert(ap.update(
                            rr2 as int,
                            Seq::new(colsa as nat, |cc: int| (ap[rr2 as int][cc] + fc * ap[r as int][cc]) % m),
                        ) =~= augmented.view()) by {
                            assert forall|t: int| 0 <= t < rows implies ap.update(
                                rr2 as int,
                                Seq::new(
                                    colsa as nat,
                                    |cc: int| (ap[rr2 as int][cc] + fc * ap[r as int][cc]) % m,
                                ),
                            )[t] =~= augmented.view()[t] by {}
                        }
                        assert(mat_mul_spec(mat_mul_spec(opm, ge, nn, m), aaug, colsa, m)
                            == augmented.view());
                        lemma_mat_mul_assoc(ge, gei, opi, nn, nn, nn, m);
                        lemma_mul_identity(opi, nn, nn, m);
                        assert(mat_mul_spec(ge, mat_mul_spec(gei, opi, nn, m), nn, m) == opi);
                        lemma_mat_mul_shape(gei, opi, nn, m);
                        lemma_mat_mul_assoc(opm, ge, mat_mul_spec(gei, opi, nn, m), nn, nn, nn, m);
                        assert(mat_mul_spec(
                            mat_mul_spec(opm, ge, nn, m),
                            mat_mul_spec(gei, opi, nn, m),
                            nn,
                            m,
                        ) == identity_spec(nn));
                        lemma_mat_mul_shape(opm, ge, nn, m);
                        ge = mat_mul_spec(opm, ge, nn, m);
                        gei = mat_mul_spec(gei, opi, nn, m);
                    }
                }
                rr2 = rr2 + 1;
            }
            proof {
                // below the pivot row everything up to the pivot column is zero
                assert forall|i: int, j: int|
                    r as int + 1 <= i < rows as int && 0 <= j < pc as int + 1
                        implies #[trigger] self.view()[i][j] == 0 by {
                    lemma_elim_zero_entry(
                        shead,
                        s1,
                        s2,
                        self.view(),
                        rows as int,
                        colss,
                        m,
                        r as int,
                        rr as int,
                        pc as int,
                        fv,
                        i,
                        j,
                    );
                }
                // the pivot column now carries a single 1, and the earlier
                // identity columns are untouched
                if c as int == r + 1 && c0 == r as int {
                    assert forall|i: int, j: int|
                        0 <= i < rows && 0 <= j < c as int implies #[trigger] self.view()[i][j] == (
                    if i == j {
                        1int
                    } else {
                        0int
                    }) by {
                        lemma_elim_entry(
                            shead,
                            s1,
                            s2,
                            self.view(),
                            rows as int,
                            colss,
                            m,
                            r as int,
                            rr as int,
                            pc as int,
                            fv,
                            i,
                            j,
                        );
                    }
                }
            }
            r = r + 1;
        }
        proof {
            assert(mat_dims(ge, rows as int, rows as int) && mat_dims(gei, rows as int, rows as int)
                && mat_mul_spec(ge, gei, rows as int, m) == identity_spec(rows as int)
                && mat_mul_spec(ge, aorig, colss, m) == self.view() && mat_mul_spec(
                ge,
                aaug,
                colsa,
                m,
            ) == augmented.view());
            if rows as int == colss {
                assert(c as int == rows as int);
                assert forall|t: int| 0 <= t < rows implies self.view()[t] =~= identity_spec(
                    rows as int,
                )[t] by {}
                assert(self.view() =~= identity_spec(rows as int));
            }
        }
        rows
    }

    /// Returns the inverse of the matrix, or None if it does not exist:
    /// a returned matrix is a left inverse under the modulus, and a square
    /// matrix with a right inverse always gets one back.
    pub fn invert(&self) -> (r: Option<Matrix>)
        requires
            self.wf(),
            crate::arith::is_prime(self.modulus_spec()),
        ensures
            self.rows_spec() != self.cols_spec() ==> r is None,
            r matches Some(b) ==> b.wf() && b.rows_spec() == self.rows_spec() && b.cols_spec()
                == self.rows_spec() && b.modulus_spec() == self.modulus_spec() && mat_mul_spec(
                b.view(),
                self.view(),
                self.cols_spec(),
                self.modulus_spec(),
            ) == identity_spec(self.rows_spec()),
            self.rows_spec() == self.cols_spec() && (exists|w: Seq<Seq<int>>|
                mat_dims(w, self.rows_spec(), self.rows_spec()) && #[trigger] mat_mul_spec(
                    self.view(),
                    w,
                    self.rows_spec(),
                    self.modulus_spec(),
                ) == identity_spec(self.rows_spec())) ==> r is Some,
    {
        if self.rows != self.cols {
            return None;
        }
        let mut id = Matrix::identity(self.rows, self.modulus);
        let mut tmp = self.duplicate();
        let rank = tmp.gaussian_elimination(&mut id);
        if rank == self.rows {
            proof {
                self.lemma_view_shape();
                lemma_mul_identity(
                    self.view(),
                    self.rows_spec(),
                    self.cols_spec(),
                    self.modulus_spec(),
                );
            }
            Some(id)
        } else {
            None
        }
    }

    /// Raises the square matrix to the power `exp`, by repeated squaring.
    /// A negative exponent inverts first, and so demands an invertible
    /// matrix over a prime modulus.
    #[verifier::loop_isolation(false)]
    pub fn pow(&self, exp: i64) -> (r: Matrix)
        requires
            self.wf(),
            self.rows_spec() == self.cols_spec(),
            exp > i64::MIN,
            exp < 0 ==> crate::arith::is_prime(self.modulus_spec()) && (exists|w: Seq<Seq<int>>|
                mat_dims(w, self.rows_spec(), self.rows_spec()) && #[trigger] mat_mul_spec(
                    self.view(),
                    w,
                    self.rows_spec(),
                    self.modulus_spec(),
                ) == identity_spec(self.rows_spec())),
        ensures
            r.wf(),
            r.rows_spec() == self.rows_spec(),
            r.cols_spec() == self.rows_spec(),
            r.modulus_spec() == self.modulus_spec(),
            exp >= 0 ==> r.view() == mat_pow_spec(
                self.view(),
                exp as nat,
                self.rows_spec(),
                self.modulus_spec(),
            ),
            exp < 0 ==> exists|v: Seq<Seq<int>>|
                #[trigger] mat_mul_spec(v, self.view(), self.cols_spec(), self.modulus_spec())
                    == identity_spec(self.rows_spec()) && r.view() == mat_pow_spec(
                    v,
                    (-exp) as nat,
                    self.rows_spec(),
                    self.modulus_spec(),
                ),
        decreases (if exp < 0 {
            1int
        } else {
            0int
        }),
    {
        let ghost n = self.rows_spec();
        let ghost m = self.modulus_spec();
        if exp < 0 {
            let inv = self.invert();
            match inv {
                Some(ivm) => {
                    let powed = ivm.pow(-exp);
                    proof {
                        assert(mat_mul_spec(ivm.view(), self.view(), self.cols_spec(), m)
                            == identity_spec(n));
                        assert(powed.view() == mat_pow_spec(ivm.view(), (-exp) as nat, n, m));
                    }
                    powed
                },
                None => {
                    proof {
                        assert(false);
                    }
                    vstd::pervasive::unreached()
                },
            }
        } else {
            proof {
                self.lemma_view_shape();
            }
            let mut ret = Matrix::identity(self.rows, self.modulus);
            let mut base = self.duplicate();
            let mut e: u64 = exp as u64;
            let ghost target = mat_pow_spec(self.view(), exp as nat, n, m);
            proof {
                lemma_mat_pow_shape(self.view(), exp as nat, n, m);
                base.lemma_view_shape();
                if exp == 0 {
                    lemma_mul_identity(identity_spec(n), n, n, m);
                    assert(mat_dims(identity_spec(n), n, n));
                    assert(mat_reduced(identity_spec(n), m));
                } else {
                    lemma_mul_identity(mat_pow_spec(self.view(), exp as nat, n, m), n, n, m);
                }
            }
            while e > 0
                invariant
                    ret.wf(),
                    base.wf(),
                    ret.rows_spec() == n,
                    ret.cols_spec() == n,
                    ret.modulus_spec() == m,
                    base.rows_spec() == n,
                    base.cols_spec() == n,
                    base.modulus_spec() == m,
                    mat_mul_spec(ret.view(), mat_pow_spec(base.view(), e as nat, n, m), n, m)
                        == target,
                decreases e,
            {
                let ghost ret0 = ret.view();
                let ghost base0 = base.view();
                let ghost e0 = e as nat;
                proof {
                    ret.lemma_view_shape();
                    base.lemma_view_shape();
                    lemma_mat_pow_shape(base0, e0, n, m);
                    lemma_mat_pow_shape(base0, (e0 - 1) as nat, n, m);
                    assert((e & 1) as int == (e as int) % 2) by (bit_vector);
                    assert((e >> 1) as int == (e as int) / 2) by (bit_vector);
                    lemma_fundamental_div_mod(e as int, 2);
                }
                if e & 1 == 1 {
                    ret = ret.mul(&base);
                    proof {
                        // ret0 * base0^e == (ret0 * base0) * base0^(e-1)
                        lemma_mat_pow_left(base0, e0, n, m);
                        lemma_mat_mul_assoc(
                            ret0,
                            base0,
                            mat_pow_spec(base0, (e0 - 1) as nat, n, m),
                            n,
                            n,
                            n,
                            m,
                        );
                    }
                }
                let newbase = base.mul(&base);
                proof {
                    let t = (e >> 1) as nat;
                    lemma_mat_pow_square(base0, t, n, m);
                    if e & 1 == 1 {
                        assert(2 * t == e0 - 1);
                        assert(mat_mul_spec(ret.view(), mat_pow_spec(newbase.view(), t, n, m), n, m)
                            == target);
                    } else {
                        assert(2 * t == e0);
                        assert(mat_mul_spec(ret.view(), mat_pow_spec(newbase.view(), t, n, m), n, m)
                            == target);
                    }
                }
                base = newbase;
                e = e >> 1;
            }
            proof {
                ret.lemma_view_shape();
                lemma_mul_identity_right(ret.view(), n, m);
            }
            ret
        }
    }

    /// Returns a `size`x`size` identity matrix.
    pub fn identity(size: usize, modulus: u64) -> (r: Matrix)
        requires
            2 <= modulus <= 0xFFFF_FFFF,
            (size as int) * (size as int) <= usize::MAX as int,
        ensures
            r.wf(),
            r.rows_spec() == size,
            r.cols_spec() == size,
            r.modulus_spec() == modulus,
            r.view() == identity_spec(size as int),
    {
        let mut m = Matrix::new(size, size, modulus);
        let mut i: usize = 0;
        while i < size
            invariant
                m.wf(),
                m.rows_spec() == size,
                m.cols_spec() == size,
                m.modulus_spec() == modulus,
                i <= size,
                forall|r: int, c: int|
                    0 <= r < size && 0 <= c < size ==> #[trigger] m.view()[r][c] == (if r == c && r
                        < i {
                        1int
                    } else {
                        0int
                    }),
            decreases size - i,
        {
            m.set(i, i, 1);
            i = i + 1;
        }
        proof {
            assert forall|r: int| 0 <= r < size implies m.view()[r] =~= identity_spec(
                size as int,
            )[r] by {}
            assert(m.view() =~= identity_spec(size as int));
        }
        m
    }
}

} // verus!
