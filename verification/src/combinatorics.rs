//! Combinatorial functions

use vstd::prelude::*;
use vstd::arithmetic::div_mod::{lemma_div_multiples_vanish, lemma_fundamental_div_mod};
use crate::arith::{divides, lemma_divides_sum, lemma_mul_cancel};

verus! {

/// The factorial of `n`.
pub open spec fn fact(n: nat) -> int
    decreases n,
{
    if n == 0 {
        1
    } else {
        n * fact((n - 1) as nat)
    }
}

/// The falling factorial: the product of the `n` integers from `m` down
/// to `m - n + 1`.
pub open spec fn falling(m: int, n: nat) -> int
    decreases n,
{
    if n == 0 {
        1
    } else {
        m * falling(m - 1, (n - 1) as nat)
    }
}

/// The binomial coefficient `m` choose `n`.
pub open spec fn binom(m: nat, n: nat) -> int {
    if n > m {
        0
    } else {
        falling(m as int, n) / fact(n)
    }
}

/// Factorials are positive.
pub proof fn lemma_fact_pos(n: nat)
    ensures
        fact(n) >= 1,
    decreases n,
{
    if n > 0 {
        lemma_fact_pos((n - 1) as nat);
        assert(n * fact((n - 1) as nat) >= 1) by (nonlinear_arith)
            requires n >= 1 && fact((n - 1) as nat) >= 1;
    }
}

/// A falling factorial of a large enough base is positive.
pub proof fn lemma_falling_pos(m: int, n: nat)
    requires
        m >= n,
    ensures
        falling(m, n) >= 1,
    decreases n,
{
    if n > 0 {
        lemma_falling_pos(m - 1, (n - 1) as nat);
        assert(m * falling(m - 1, (n - 1) as nat) >= 1) by (nonlinear_arith)
            requires m >= 1 && falling(m - 1, (n - 1) as nat) >= 1;
    }
}

/// Extending a falling factorial by its next, smallest factor.
pub proof fn lemma_falling_last(x: int, j: nat)
    ensures
        falling(x, (j + 1) as nat) == falling(x, j) * (x - j),
    decreases j,
{
    if j == 0 {
        assert(falling(x, 1nat) == x * falling(x - 1, 0nat));
    } else {
        lemma_falling_last(x - 1, (j - 1) as nat);
        assert(falling(x, (j + 1) as nat) == x * falling(x - 1, j));
        assert(x * (falling(x - 1, (j - 1) as nat) * (x - j)) == (x * falling(
            x - 1,
            (j - 1) as nat,
        )) * (x - j)) by (nonlinear_arith);
    }
}

/// Pascal-style recurrence for falling factorials.
pub proof fn lemma_falling_pascal(m: int, n: nat)
    requires
        n >= 1,
    ensures
        falling(m, n) == falling(m - 1, n) + n * falling(m - 1, (n - 1) as nat),
{
    lemma_falling_last(m - 1, (n - 1) as nat);
    assert(falling(m - 1, n) == falling(m - 1, (n - 1) as nat) * (m - n));
    let f = falling(m - 1, (n - 1) as nat);
    assert(m * f == f * (m - n) + n * f) by (nonlinear_arith);
}

/// `n!` divides the product of any `n` consecutive integers.
pub proof fn lemma_fact_divides_falling(m: nat, n: nat)
    ensures
        divides(fact(n), falling(m as int, n)),
    decreases m, n,
{
    if n == 0 {
        assert(falling(m as int, n) == fact(n) * 1);
        assert(divides(fact(n), falling(m as int, n)));
    } else if m == 0 {
        assert(falling(0, n) == 0 * falling(-1, (n - 1) as nat));
        assert(0int == fact(n) * 0);
        assert(divides(fact(n), 0int));
    } else {
        lemma_falling_pascal(m as int, n);
        lemma_fact_divides_falling((m - 1) as nat, n);
        lemma_fact_divides_falling((m - 1) as nat, (n - 1) as nat);
        let c = choose|k: int| falling(m - 1, (n - 1) as nat) == #[trigger] (fact((n - 1) as nat)
            * k);
        assert(n * falling(m - 1, (n - 1) as nat) == fact(n) * c) by (nonlinear_arith)
            requires
                falling(m - 1, (n - 1) as nat) == fact((n - 1) as nat) * c,
                fact(n) == n * fact((n - 1) as nat),
        ;
        assert(divides(fact(n), n * falling(m - 1, (n - 1) as nat)));
        lemma_divides_sum(fact(n), falling(m - 1, n), n * falling(m - 1, (n - 1) as nat));
    }
}

/// The full factorial splits as a falling factorial times a smaller factorial.
pub proof fn lemma_fact_split(m: nat, n: nat)
    requires
        n <= m,
    ensures
        fact(m) == falling(m as int, n) * fact((m - n) as nat),
    decreases n,
{
    if n == 0 {
        assert(fact(m) == 1 * fact(m));
    } else {
        lemma_fact_split(m, (n - 1) as nat);
        lemma_falling_last(m as int, (n - 1) as nat);
        assert(fact((m - n + 1) as nat) == (m - n + 1) * fact((m - n) as nat));
        assert(falling(m as int, (n - 1) as nat) * ((m - n + 1) * fact((m - n) as nat)) == (falling(
            m as int,
            (n - 1) as nat,
        ) * (m as int - (n - 1))) * fact((m - n) as nat)) by (nonlinear_arith);
    }
}

/// The defining identity with the division written as a product.
pub proof fn lemma_binom_times_fact(m: nat, n: nat)
    requires
        n <= m,
    ensures
        binom(m, n) * fact(n) == falling(m as int, n),
        binom(m, n) >= 1,
{
    lemma_fact_divides_falling(m, n);
    lemma_fact_pos(n);
    lemma_falling_pos(m as int, n);
    let c = choose|k: int| falling(m as int, n) == #[trigger] (fact(n) * k);
    lemma_div_multiples_vanish(c, fact(n));
    assert(binom(m, n) == c);
    assert(c * fact(n) == fact(n) * c);
    assert(c >= 1) by (nonlinear_arith)
        requires fact(n) * c >= 1 && fact(n) >= 1;
}

/// Choosing `n` of `m` is choosing which `m - n` to leave out.
pub proof fn lemma_binom_symmetry(m: nat, n: nat)
    requires
        n <= m,
    ensures
        binom(m, n) == binom(m, (m - n) as nat),
{
    lemma_fact_split(m, n);
    lemma_fact_split(m, (m - n) as nat);
    lemma_binom_times_fact(m, n);
    lemma_binom_times_fact(m, (m - n) as nat);
    let c1 = binom(m, n);
    let c2 = binom(m, (m - n) as nat);
    lemma_fact_pos(n);
    lemma_fact_pos((m - n) as nat);
    assert(c1 * (fact(n) * fact((m - n) as nat)) == c2 * (fact(n) * fact((m - n) as nat)))
        by (nonlinear_arith)
        requires
            c1 * fact(n) == falling(m as int, n),
            c2 * fact((m - n) as nat) == falling(m as int, (m - n) as nat),
            fact(m as nat) == falling(m as int, n) * fact((m - n) as nat),
            fact(m as nat) == falling(m as int, (m - n) as nat) * fact(n),
    ;
    assert(fact(n) * fact((m - n) as nat) >= 1) by (nonlinear_arith)
        requires fact(n) >= 1 && fact((m - n) as nat) >= 1;
    lemma_mul_cancel(c1, c2, fact(n) * fact((m - n) as nat));
}

/// Calculates the binomial coefficient `m` choose `n`.
///
/// The requirement bounds only the intermediate numerator product
/// `m * (m-1) * ... * (m - min(n, m-n) + 1)`, which this algorithm forms in
/// full before dividing.
pub fn binomial(m: usize, n: usize) -> (r: usize)
    requires
        n <= m ==> falling(
            m as int,
            (if n + n <= m {
                n
            } else {
                (m - n) as usize
            }) as nat,
        ) <= usize::MAX as int,
    ensures
        r as int == binom(m as nat, n as nat),
{
    if n > m {
        return 0;
    }
    let mut nn: usize = n;
    if nn > m / 2 {
        nn = m - nn;
    }
    proof {
        lemma_fundamental_div_mod(m as int, 2);
        assert(nn == if n + n <= m { n } else { (m - n) as usize });
        assert(2 * (nn as int) <= m as int);
        if nn != n {
            lemma_binom_symmetry(m as nat, n as nat);
        }
        lemma_falling_pos(m as int, nn as nat);
    }
    let ghost total = falling(m as int, nn as nat);
    let mut res: usize = 1;
    let mut cnt: usize = 0;
    while cnt < nn
        invariant
            2 * (nn as int) <= m as int,
            cnt <= nn,
            total == falling(m as int, nn as nat),
            total <= usize::MAX as int,
            res >= 1,
            falling(m as int, (nn - cnt) as nat) * (res as int) == total,
        decreases nn - cnt,
    {
        let factor = m - nn + 1 + cnt;
        proof {
            let rem = (nn - cnt - 1) as nat;
            lemma_falling_last(m as int, rem);
            assert(falling(m as int, (nn - cnt) as nat) == falling(m as int, rem) * (
            factor as int));
            lemma_falling_pos(m as int, rem);
            assert((falling(m as int, rem) * (factor as int)) * (res as int) == falling(
                m as int,
                rem,
            ) * ((res as int) * (factor as int))) by (nonlinear_arith);
            assert((res as int) * (factor as int) <= total) by (nonlinear_arith)
                requires
                    falling(m as int, rem) * ((res as int) * (factor as int)) == total,
                    falling(m as int, rem) >= 1,
                    res >= 1,
                    factor >= 1,
            ;
        }
        proof {
            assert((res as int) * (factor as int) >= 1) by (nonlinear_arith)
                requires res >= 1 && factor >= 1;
        }
        res = res * factor;
        cnt = cnt + 1;
    }
    proof {
        assert(falling(m as int, 0nat) == 1);
        assert(1 * (res as int) == res as int);
    }
    let mut j: usize = 1;
    while j <= nn
        invariant
            2 * (nn as int) <= m as int,
            nn <= m,
            1 <= j <= nn + 1,
            total == falling(m as int, nn as nat),
            total >= 1,
            (res as int) * fact((j - 1) as nat) == total,
            res >= 1,
        decreases nn + 1 - j,
    {
        proof {
            lemma_fact_whole_divides(m as nat, nn as nat, j as nat);
            lemma_fact_pos(j as nat);
            let c = choose|k: int| total == #[trigger] (fact(j as nat) * k);
            lemma_fact_pos((j - 1) as nat);
            assert((res as int) == (j as int) * c) by (nonlinear_arith)
                requires
                    (res as int) * fact((j - 1) as nat) == total,
                    total == fact(j as nat) * c,
                    fact(j as nat) == (j as int) * fact((j - 1) as nat),
                    fact((j - 1) as nat) >= 1,
            ;
            lemma_div_multiples_vanish(c, j as int);
            assert(((res / j) as int) * fact(j as nat) == total) by (nonlinear_arith)
                requires
                    (res / j) as int == c,
                    total == fact(j as nat) * c,
            ;
            assert(c >= 1) by (nonlinear_arith)
                requires
                    fact(j as nat) * c == total,
                    total >= 1,
                    fact(j as nat) >= 1,
            ;
        }
        res = res / j;
        j = j + 1;
    }
    proof {
        lemma_binom_times_fact(m as nat, nn as nat);
        lemma_fact_pos(nn as nat);
        lemma_mul_cancel(res as int, binom(m as nat, nn as nat), fact(nn as nat));
    }
    res
}

/// The factorial of a middle index divides the full falling factorial.
proof fn lemma_fact_whole_divides(m: nat, nn: nat, j: nat)
    requires
        j <= nn <= m,
    ensures
        divides(fact(j), falling(m as int, nn)),
{
    lemma_fact_divides_falling(m, nn);
    lemma_fact_split(nn, (nn - j) as nat);
    let c = choose|k: int| falling(m as int, nn) == #[trigger] (fact(nn) * k);
    assert(falling(m as int, nn) == fact(j) * ((falling(nn as int, (nn - j) as nat) * c)))
        by (nonlinear_arith)
        requires
            falling(m as int, nn) == fact(nn) * c,
            fact(nn) == falling(nn as int, (nn - j) as nat) * fact(j),
    ;
}

} // verus!
