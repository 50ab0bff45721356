//! Sieve of Eratosthenes, kept as a factoring table.
//!
//! The table stores, for every integer from 2 up to the bound, its largest
//! prime factor: each prime's marking pass overwrites the entry of every
//! multiple, and the passes run in increasing order, so the last write at a
//! composite comes from its largest prime factor.

use vstd::prelude::*;
use vstd::arithmetic::power::pow;
use vstd::arithmetic::div_mod::{lemma_fundamental_div_mod, lemma_fundamental_div_mod_converse};
use crate::arith::{
    divides, is_prime, lemma_composite_has_smaller_prime_factor, lemma_coprime_divides_pow_cancel,
    lemma_divides_add, lemma_divides_iff_mod_zero, lemma_divides_le, lemma_divides_self,
    lemma_divides_trans, lemma_extract_prime_power, lemma_has_prime_factor, lemma_mul_cancel,
    lemma_multiple_gap, lemma_pow_ge_succ, lemma_prime_if_no_smaller_prime_factor,
};

verus! {

/// Product of the prime powers `p^k` over a factorization list.
pub open spec fn prod_pows(s: Seq<(usize, usize)>) -> int
    decreases s.len(),
{
    if s.len() == 0 {
        1
    } else {
        pow(s[0].0 as int, s[0].1 as nat) * prod_pows(s.drop_first())
    }
}

/// `e` is the largest prime factor of `k`.
pub open spec fn lpf_entry(k: int, e: int) -> bool {
    &&& is_prime(e)
    &&& divides(e, k)
    &&& forall|q: int| is_prime(q) && #[trigger] divides(q, k) ==> q <= e
}

/// `k` has no prime factor below `p`.
spec fn no_pf_below(k: int, p: int) -> bool {
    forall|q: int| is_prime(q) && q < p ==> !#[trigger] divides(q, k)
}

/// `e` is the largest prime factor of `k` among the primes below `p`.
spec fn lpf_below(k: int, p: int, e: int) -> bool {
    &&& is_prime(e)
    &&& e < p
    &&& divides(e, k)
    &&& forall|q: int| is_prime(q) && q < p && #[trigger] divides(q, k) ==> q <= e
}

/// A prime number sieve suitable for factoring.
pub struct Sieve {
    sieve: Vec<usize>,
}

impl Sieve {
    /// The largest integer the table covers.
    pub closed spec fn bound(self) -> int {
        self.sieve@.len() - 1
    }

    /// The table holds 0 below 2 and the largest prime factor everywhere else.
    pub closed spec fn wf(self) -> bool {
        &&& self.sieve@.len() >= 1
        &&& self.sieve@[0] == 0
        &&& self.sieve@.len() >= 2 ==> self.sieve@[1] == 0
        &&& forall|k: int|
            2 <= k < self.sieve@.len() ==> lpf_entry(k, #[trigger] self.sieve@[k] as int)
    }

    /// Sieves primes up to `n`. Internally stores the largest prime factor of every number.
    pub fn sieve_to(n: usize) -> (r: Sieve)
        requires
            n <= usize::MAX / 2,
        ensures
            r.wf(),
            r.bound() == n,
    {
        let (s, _primes) = Sieve::sieve_to_list(n);
        s
    }

    /// Sieves primes up to `n`. Returns the sieve as well as the list of the
    /// primes up to `n`, in increasing order.
    pub fn sieve_to_list(n: usize) -> (r: (Sieve, Vec<usize>))
        requires
            n <= usize::MAX / 2,
        ensures
            r.0.wf(),
            r.0.bound() == n,
            forall|t: int|
                0 <= t < r.1@.len() ==> is_prime(#[trigger] r.1@[t] as int) && 2 <= r.1@[t] <= n,
            forall|t1: int, t2: int| 0 <= t1 < t2 < r.1@.len() ==> r.1@[t1] < r.1@[t2],
            forall|q: usize| 2 <= q <= n && is_prime(q as int) ==> r.1@.contains(q),
    {
        let mut sieve: Vec<usize> = Vec::new();
        let mut z: usize = 0;
        while z < n + 1
            invariant
                z <= n + 1,
                n <= usize::MAX / 2,
                sieve@.len() == z,
                forall|t: int| 0 <= t < z ==> sieve@[t] == 0usize,
            decreases n + 1 - z,
        {
            sieve.push(0usize);
            z = z + 1;
        }
        let mut primes: Vec<usize> = Vec::new();
        let mut p: usize = 2;
        while p <= n
            invariant
                n <= usize::MAX / 2,
                sieve@.len() == n + 1,
                2 <= p,
                sieve@[0] == 0,
                n >= 1 ==> sieve@[1] == 0,
                forall|k: int|
                    2 <= k <= n ==> ((#[trigger] sieve@[k]) == 0 <==> no_pf_below(k, p as int)),
                forall|k: int|
                    2 <= k <= n && sieve@[k] != 0 ==> lpf_below(
                        k,
                        p as int,
                        (#[trigger] sieve@[k]) as int,
                    ),
                forall|t: int|
                    0 <= t < primes@.len() ==> is_prime(#[trigger] primes@[t] as int) && 2
                        <= primes@[t] < p && primes@[t] <= n,
                forall|t1: int, t2: int| 0 <= t1 < t2 < primes@.len() ==> primes@[t1] < primes@[t2],
                forall|q: usize| 2 <= q && q < p && is_prime(q as int) ==> primes@.contains(q),
            decreases n + 1 - p,
        {
            if sieve[p] == 0 {
                proof {
                    assert(no_pf_below(p as int, p as int));
                    lemma_prime_if_no_smaller_prime_factor(p as int);
                }
                let ghost primes0 = primes@;
                primes.push(p);
                proof {
                    assert forall|q: usize| 2 <= q && q < p + 1 && is_prime(q as int)
                        implies primes@.contains(q) by {
                        if q < p {
                            let t = choose|t: int| 0 <= t < primes0.len() && primes0[t] == q;
                            assert(primes@[t] == q);
                        } else {
                            assert(primes@[primes@.len() - 1] == q);
                        }
                    }
                }
                let ghost s_out = sieve@;
                let mut i: usize = p;
                proof {
                    lemma_divides_self(p as int);
                }
                while i <= n
                    invariant
                        n <= usize::MAX / 2,
                        sieve@.len() == n + 1,
                        2 <= p <= n,
                        is_prime(p as int),
                        p <= i,
                        divides(p as int, i as int),
                        s_out.len() == n + 1,
                        forall|k: int|
                            0 <= k <= n ==> (#[trigger] sieve@[k]) == (if p <= k < i && divides(
                                p as int,
                                k,
                            ) {
                                p
                            } else {
                                s_out[k]
                            }),
                    decreases n + p - i,
                {
                    sieve.set(i, p);
                    proof {
                        lemma_divides_add(p as int, i as int);
                        assert forall|k: int| 0 <= k <= n implies (#[trigger] sieve@[k]) == (if p
                            <= k < i + p && divides(p as int, k) {
                            p
                        } else {
                            s_out[k]
                        }) by {
                            if i < k < i + p && divides(p as int, k) {
                                lemma_multiple_gap(p as int, i as int, k);
                            }
                        }
                    }
                    i = i + p;
                }
                proof {
                    assert forall|k: int| 2 <= k <= n implies ((#[trigger] sieve@[k]) == 0
                        <==> no_pf_below(k, p + 1 as int)) by {
                        if divides(p as int, k) {
                            lemma_divides_le(p as int, k);
                            assert(sieve@[k] == p);
                            assert(!no_pf_below(k, p + 1 as int));
                        } else {
                            assert(sieve@[k] == s_out[k]);
                            assert forall|q: int|
                                is_prime(q) && q < p + 1 && #[trigger] divides(q, k) implies q
                                < p by {}
                            assert(no_pf_below(k, p as int) <==> no_pf_below(k, p + 1 as int));
                        }
                    }
                    assert forall|k: int| 2 <= k <= n && sieve@[k] != 0 implies lpf_below(
                        k,
                        p + 1 as int,
                        (#[trigger] sieve@[k]) as int,
                    ) by {
                        if divides(p as int, k) {
                            lemma_divides_le(p as int, k);
                            assert(sieve@[k] == p);
                        } else {
                            assert(sieve@[k] == s_out[k]);
                        }
                    }
                }
            } else {
                proof {
                    let e = sieve@[p as int];
                    assert(lpf_below(p as int, p as int, e as int));
                    assert(1 < e < p && divides(e as int, p as int));
                    assert(!is_prime(p as int));
                    assert forall|k: int| 2 <= k <= n implies ((#[trigger] sieve@[k]) == 0
                        <==> no_pf_below(k, p + 1 as int)) by {
                        assert forall|q: int|
                            is_prime(q) && q < p + 1 && #[trigger] divides(q, k) implies q < p by {}
                        assert(no_pf_below(k, p as int) <==> no_pf_below(k, p + 1 as int));
                    }
                }
            }
            p = p + 1;
        }
        let r = Sieve { sieve };
        proof {
            assert forall|k: int| 2 <= k < r.sieve@.len() implies lpf_entry(
                k,
                (#[trigger] r.sieve@[k]) as int,
            ) by {
                lemma_has_prime_factor(k);
                let q0 = choose|q: int| is_prime(q) && divides(q, k) && 2 <= q <= k;
                assert(!no_pf_below(k, p as int));
                assert(r.sieve@[k] != 0);
                assert(lpf_below(k, p as int, r.sieve@[k] as int));
                assert forall|q: int| is_prime(q) && #[trigger] divides(q, k) implies q
                    <= r.sieve@[k] as int by {
                    lemma_divides_le(q, k);
                }
            }
        }
        (r, primes)
    }

    /// Factors `n`. Returns a list of (p,k) pairs, ordered by increasing prime,
    /// for every prime power p^k dividing `n`. For `n` = 1 returns the empty list.
    ///
    /// The product of the listed prime powers is exactly `n`, every listed
    /// base is prime and every exponent is at least 1.
    pub fn factor(&self, n: usize) -> (r: Vec<(usize, usize)>)
        requires
            self.wf(),
            1 <= n <= self.bound(),
        ensures
            prod_pows(r@) == n as int,
            forall|t: int|
                0 <= t < r@.len() ==> is_prime(#[trigger] r@[t].0 as int) && r@[t].1 >= 1,
            forall|t1: int, t2: int| 0 <= t1 < t2 < r@.len() ==> r@[t1].0 < r@[t2].0,
            r@.len() == 0 <==> n == 1,
    {
        let mut m: usize = n;
        let mut res: Vec<(usize, usize)> = Vec::new();
        while m > 1
            invariant
                self.wf(),
                1 <= m <= n,
                (n as int) <= self.bound(),
                prod_pows(res@) * (m as int) == n as int,
                forall|t: int|
                    0 <= t < res@.len() ==> is_prime(#[trigger] res@[t].0 as int) && res@[t].1
                        >= 1,
                forall|t1: int, t2: int| 0 <= t1 < t2 < res@.len() ==> res@[t1].0 < res@[t2].0,
                res@.len() > 0 ==> forall|q: int|
                    is_prime(q) && #[trigger] divides(q, m as int) ==> q < res@[0].0 as int,
                m == 1 ==> res@.len() > 0 || n == 1,
                n == 1 ==> res@.len() == 0,
            decreases m,
        {
            let p = self.sieve[m];
            proof {
                assert(lpf_entry(m as int, p as int));
                lemma_divides_iff_mod_zero(p as int, m as int);
            }
            let ghost m0 = m as int;
            let mut k: usize = 0;
            proof {
                vstd::arithmetic::power::lemma_pow0(p as int);
            }
            while m % p == 0
                invariant
                    is_prime(p as int),
                    1 <= m,
                    m0 >= 1,
                    pow(p as int, k as nat) * (m as int) == m0,
                    m0 <= usize::MAX,
                decreases m,
            {
                proof {
                    reveal(pow);
                    lemma_fundamental_div_mod(m as int, p as int);
                    assert(((m / p) as int) >= 1 && ((m / p) as int) < (m as int)) by (nonlinear_arith)
                        requires
                            m as int == (p as int) * ((m / p) as int),
                            m >= 1,
                            p >= 2,
                    ;
                    let prevpow = pow(p as int, k as nat);
                    assert(pow(p as int, (k + 1) as nat) == p * prevpow);
                    assert(prevpow >= 1) by {
                        vstd::arithmetic::power::lemma_pow_positive(p as int, k as nat);
                    }
                    assert((p * prevpow) * ((m / p) as int) == prevpow * (p * ((m / p) as int)))
                        by (nonlinear_arith);
                    lemma_pow_ge_succ(p as int, (k + 1) as nat);
                    assert(p * prevpow <= m0) by (nonlinear_arith)
                        requires
                            (p * prevpow) * ((m / p) as int) == m0,
                            (m / p) as int >= 1,
                            p * prevpow >= 1,
                    ;
                }
                m = m / p;
                k = k + 1;
            }
            proof {
                if k == 0 {
                    assert(k as nat == 0nat);
                    assert(pow(p as int, 0nat) == 1) by {
                        vstd::arithmetic::power::lemma_pow0(p as int);
                    }
                    assert(1int * (m as int) == m as int);
                    assert(m as int == m0);
                    assert(false);
                }
                vstd::arithmetic::power::lemma_pow_positive(p as int, k as nat);
                lemma_pow_ge_succ(p as int, k as nat);
                assert(2 * (m as int) <= m0) by (nonlinear_arith)
                    requires
                        pow(p as int, k as nat) * (m as int) == m0,
                        m >= 1,
                        pow(p as int, k as nat) >= 2,
                ;
            }
            let ghost oldres = res@;
            res.insert(0, (p, k));
            proof {
                assert(res@.drop_first() =~= oldres);
                assert(prod_pows(res@) == pow(p as int, k as nat) * prod_pows(oldres));
                assert(prod_pows(oldres) * m0 == n as int);
                assert((pow(p as int, k as nat) * prod_pows(oldres)) * (m as int) == prod_pows(
                    oldres,
                ) * (pow(p as int, k as nat) * (m as int))) by (nonlinear_arith);
                assert(prod_pows(res@) * (m as int) == n as int);
                // every prime factor of the remaining cofactor is smaller than p
                assert(m0 == (m as int) * pow(p as int, k as nat)) by (nonlinear_arith)
                    requires pow(p as int, k as nat) * (m as int) == m0;
                assert(divides(m as int, m0));
                assert forall|q: int| is_prime(q) && #[trigger] divides(q, m as int) implies q < (
                res@[0].0 as int) by {
                    lemma_divides_trans(q, m as int, m0);
                    assert(q <= p as int);
                    if q == p as int {
                        lemma_divides_iff_mod_zero(p as int, m as int);
                    }
                }
            }
        }
        proof {
            if res@.len() == 0 {
                assert(prod_pows(res@) == 1);
            }
            assert(prod_pows(res@) * 1int == prod_pows(res@));
        }
        res
    }

    /// Finds the divisors of `n`: every divisor of `n` appears exactly once,
    /// grouped by divisor of the cofactor rather than by magnitude.
    pub fn divisors(&self, n: usize) -> (r: Vec<usize>)
        requires
            self.wf(),
            1 <= n <= self.bound(),
        ensures
            forall|t: int|
                0 <= t < r@.len() ==> 1 <= #[trigger] r@[t] <= n && divides(r@[t] as int, n as int),
            forall|e: usize|
                1 <= e <= n && #[trigger] divides(e as int, n as int) ==> r@.contains(e),
            r@.no_duplicates(),
        decreases n,
    {
        if n == 1 {
            let mut res: Vec<usize> = Vec::new();
            res.push(1);
            proof {
                assert(1int == 1int * 1);
                assert(divides(1int, 1int));
                assert forall|e: usize|
                    1 <= e <= n && #[trigger] divides(e as int, n as int) implies res@.contains(
                    e,
                ) by {
                    assert(res@[0] == 1usize);
                }
            }
            return res;
        }
        let p = self.sieve[n];
        proof {
            assert(lpf_entry(n as int, p as int));
            lemma_divides_iff_mod_zero(p as int, n as int);
        }
        let ghost m0 = n as int;
        let mut m: usize = n;
        let mut k: usize = 0;
        proof {
            vstd::arithmetic::power::lemma_pow0(p as int);
        }
        while m % p == 0
            invariant
                is_prime(p as int),
                1 <= m,
                m0 >= 1,
                pow(p as int, k as nat) * (m as int) == m0,
                m0 <= usize::MAX,
            decreases m,
        {
            proof {
                reveal(pow);
                lemma_fundamental_div_mod(m as int, p as int);
                assert(((m / p) as int) >= 1 && ((m / p) as int) < (m as int)) by (nonlinear_arith)
                    requires
                        m as int == (p as int) * ((m / p) as int),
                        m >= 1,
                        p >= 2,
                ;
                let prevpow = pow(p as int, k as nat);
                assert(pow(p as int, (k + 1) as nat) == p * prevpow);
                assert(prevpow >= 1) by {
                    vstd::arithmetic::power::lemma_pow_positive(p as int, k as nat);
                }
                assert((p * prevpow) * ((m / p) as int) == prevpow * (p * ((m / p) as int)))
                    by (nonlinear_arith);
                lemma_pow_ge_succ(p as int, (k + 1) as nat);
                assert(p * prevpow <= m0) by (nonlinear_arith)
                    requires
                        (p * prevpow) * ((m / p) as int) == m0,
                        (m / p) as int >= 1,
                        p * prevpow >= 1,
                ;
            }
            m = m / p;
            k = k + 1;
        }
        proof {
            if k == 0 {
                assert(k as nat == 0nat);
                assert(pow(p as int, 0nat) == 1) by {
                    vstd::arithmetic::power::lemma_pow0(p as int);
                }
                assert(1int * (m as int) == m as int);
                assert(m as int == m0);
                assert(false);
            }
            vstd::arithmetic::power::lemma_pow_positive(p as int, k as nat);
            lemma_pow_ge_succ(p as int, k as nat);
            assert(2 * (m as int) <= m0) by (nonlinear_arith)
                requires
                    pow(p as int, k as nat) * (m as int) == m0,
                    m >= 1,
                    pow(p as int, k as nat) >= 2,
            ;
            assert(pow(p as int, k as nat) <= m0) by (nonlinear_arith)
                requires
                    pow(p as int, k as nat) * (m as int) == m0,
                    m >= 1,
                    pow(p as int, k as nat) >= 1,
            ;
            assert(k < n);
            lemma_divides_iff_mod_zero(p as int, m as int);
        }
        let l = self.divisors(m);
        let ghost w = k as int + 1;
        let mut res: Vec<usize> = Vec::new();
        let mut a: usize = 0;
        while a < l.len()
            invariant
                self.wf(),
                is_prime(p as int),
                1 <= m < n,
                (n as int) <= self.bound(),
                k >= 1,
                k < n,
                w == k as int + 1,
                pow(p as int, k as nat) * (m as int) == n as int,
                !divides(p as int, m as int),
                forall|t: int|
                    0 <= t < l@.len() ==> 1 <= #[trigger] l@[t] <= m && divides(
                        l@[t] as int,
                        m as int,
                    ),
                forall|e: usize|
                    1 <= e <= m && #[trigger] divides(e as int, m as int) ==> l@.contains(e),
                l@.no_duplicates(),
                a <= l.len(),
                res@.len() == a as int * w,
                forall|t: int|
                    0 <= t < res@.len() ==> (#[trigger] res@[t]) as int == (l@[t / w] as int) * pow(
                        p as int,
                        (t % w) as nat,
                    ),
                forall|t: int|
                    0 <= t < res@.len() ==> 1 <= #[trigger] res@[t] <= n && divides(
                        res@[t] as int,
                        n as int,
                    ),
            decreases l.len() - a,
        {
            let d = l[a];
            let mut pp: usize = 1;
            let mut j: usize = 0;
            proof {
                vstd::arithmetic::power::lemma_pow0(p as int);
            }
            while j < k + 1
                invariant
                    self.wf(),
                    is_prime(p as int),
                    1 <= m < n,
                    (n as int) <= self.bound(),
                    k >= 1,
                    k < n,
                    w == k as int + 1,
                    pow(p as int, k as nat) * (m as int) == n as int,
                    !divides(p as int, m as int),
                    forall|t: int|
                        0 <= t < l@.len() ==> 1 <= #[trigger] l@[t] <= m && divides(
                            l@[t] as int,
                            m as int,
                        ),
                    forall|e: usize|
                        1 <= e <= m && #[trigger] divides(e as int, m as int) ==> l@.contains(e),
                    l@.no_duplicates(),
                    a < l.len(),
                    d == l@[a as int],
                    j <= k + 1,
                    j <= k ==> pp as int == pow(p as int, j as nat),
                    res@.len() == a as int * w + j,
                    forall|t: int|
                        0 <= t < res@.len() ==> (#[trigger] res@[t]) as int == (l@[t / w]
                            as int) * pow(p as int, (t % w) as nat),
                    forall|t: int|
                        0 <= t < res@.len() ==> 1 <= #[trigger] res@[t] <= n && divides(
                            res@[t] as int,
                            n as int,
                        ),
                decreases k + 1 - j,
            {
                proof {
                    let dd = d as int;
                    let jn = j as nat;
                    assert(divides(dd * pow(p as int, jn), n as int)) by {
                        lemma_divisor_times_pow_divides(p as int, jn, k as nat, dd, m as int, n as int);
                    }
                    vstd::arithmetic::power::lemma_pow_positive(p as int, jn);
                    assert(dd * pow(p as int, jn) >= 1) by (nonlinear_arith)
                        requires dd >= 1 && pow(p as int, jn) >= 1;
                    lemma_divides_le(dd * pow(p as int, jn), n as int);
                }
                res.push(d * pp);
                proof {
                    let t = res@.len() - 1;
                    lemma_fundamental_div_mod_converse(t, w, a as int, j as int);
                    assert(res@[t] as int == (l@[t / w] as int) * pow(p as int, (t % w) as nat));
                }
                if j < k {
                    proof {
                        reveal(pow);
                        assert(pow(p as int, (j + 1) as nat) == p * pow(p as int, j as nat));
                        lemma_pow_mul_divides(p as int, (j + 1) as nat, k as nat, m as int, n as int);
                        vstd::arithmetic::power::lemma_pow_positive(p as int, (j + 1) as nat);
                        lemma_divides_le(pow(p as int, (j + 1) as nat), n as int);
                    }
                    pp = pp * p;
                }
                j = j + 1;
            }
            proof {
                assert((a as int + 1) * w == a as int * w + w) by (nonlinear_arith);
            }
            a = a + 1;
        }
        proof {
            let ghost nn = n as int;
            let ghost pi = p as int;
            let ghost kn = k as nat;
            let ghost mi = m as int;
            let ghost len = l@.len() as int;
            assert(res@.len() == len * w);
            // completeness: every divisor of n is some cofactor divisor times a power of p
            assert forall|e: usize|
                1 <= e <= n && #[trigger] divides(e as int, nn) implies res@.contains(e) by {
                let (j, d) = lemma_extract_prime_power(pi, e as int);
                if j > kn {
                    vstd::arithmetic::power::lemma_pow_adds(pi, (kn + 1) as nat, (j - kn - 1) as nat);
                    vstd::arithmetic::power::lemma_pow_positive(pi, (j - kn - 1) as nat);
                    assert(divides(pow(pi, (kn + 1) as nat), pow(pi, j)));
                    assert(e as int == pow(pi, j) * d);
                    assert(divides(pow(pi, j), e as int)) by {
                        assert(e as int == pow(pi, j) * d);
                    }
                    lemma_divides_trans(pow(pi, (kn + 1) as nat), pow(pi, j), e as int);
                    lemma_divides_trans(pow(pi, (kn + 1) as nat), e as int, nn);
                    let ww = choose|q: int| nn == #[trigger] (pow(pi, (kn + 1) as nat) * q);
                    assert(pow(pi, (kn + 1) as nat) == pi * pow(pi, kn)) by {
                        reveal(pow);
                    }
                    assert(mi * pow(pi, kn) == (pi * ww) * pow(pi, kn)) by (nonlinear_arith)
                        requires
                            pow(pi, kn) * mi == nn,
                            nn == (pi * pow(pi, kn)) * ww,
                    ;
                    vstd::arithmetic::power::lemma_pow_positive(pi, kn);
                    lemma_mul_cancel(mi, pi * ww, pow(pi, kn));
                    assert(divides(pi, mi));
                    assert(false);
                }
                assert(divides(d, e as int)) by {
                    assert(e as int == d * pow(pi, j));
                }
                lemma_divides_trans(d, e as int, nn);
                lemma_coprime_divides_pow_cancel(d, pi, kn, mi);
                lemma_divides_le(d, mi);
                let du = d as usize;
                assert(1 <= du <= m && divides(du as int, mi));
                assert(l@.contains(du));
                let aa = choose|i: int| 0 <= i < l@.len() && l@[i] == du;
                let t = aa * w + j;
                assert(0 <= t < len * w) by (nonlinear_arith)
                    requires
                        0 <= aa < len,
                        0 <= j < w,
                        t == aa * w + j,
                ;
                lemma_fundamental_div_mod_converse(t, w, aa, j as int);
                assert(res@[t] as int == (l@[t / w] as int) * pow(pi, (t % w) as nat));
                assert(res@[t] as int == d * pow(pi, j) == e as int);
                assert(res@[t] == e);
            }
            // distinctness: different cofactor divisors or different powers give
            // different products
            assert forall|t1: int, t2: int|
                0 <= t1 < res@.len() && 0 <= t2 < res@.len() && t1 != t2 implies res@[t1]
                != res@[t2] by {
                lemma_index_decompose(t1, w, len);
                lemma_index_decompose(t2, w, len);
                let a1 = t1 / w;
                let j1 = t1 % w;
                let a2 = t2 / w;
                let j2 = t2 % w;
                let d1 = l@[a1] as int;
                let d2 = l@[a2] as int;
                if res@[t1] == res@[t2] {
                    lemma_distinct_products(pi, mi, d1, d2, j1 as nat, j2 as nat);
                    assert(a1 == a2 && j1 == j2);
                    assert(t1 == t2);
                }
            }
        }
        res
    }

    /// A wrapper to sieve_to.
    pub fn new(n: usize) -> (r: Sieve)
        requires
            n <= usize::MAX / 2,
        ensures
            r.wf(),
            r.bound() == n,
    {
        Sieve::sieve_to(n)
    }
}

/// The number of divisors a factorization predicts: the product over its
/// entries of each exponent plus one.
pub open spec fn prod_exps(s: Seq<(usize, usize)>) -> int
    decreases s.len(),
{
    if s.len() == 0 {
        1
    } else {
        (s[0].1 + 1) * prod_exps(s.drop_first())
    }
}

/// The set of divisors of `n`.
pub open spec fn divisor_set(n: int) -> Set<int> {
    Set::new(|d: int| 1 <= d <= n && divides(d, n))
}

/// What `factor` promises of its result: a strictly increasing list of
/// prime powers whose product is `n`.
pub open spec fn valid_factorization(s: Seq<(usize, usize)>, n: int) -> bool {
    &&& prod_pows(s) == n
    &&& forall|t: int| 0 <= t < s.len() ==> is_prime(#[trigger] s[t].0 as int) && s[t].1 >= 1
    &&& forall|t1: int, t2: int| 0 <= t1 < t2 < s.len() ==> s[t1].0 < s[t2].0
}

/// Peeling the last factor off the product.
proof fn lemma_prod_pows_last(s: Seq<(usize, usize)>)
    requires
        s.len() >= 1,
    ensures
        prod_pows(s) == prod_pows(s.drop_last()) * pow(s.last().0 as int, s.last().1 as nat),
    decreases s.len(),
{
    if s.len() == 1 {
        assert(s.drop_last().len() == 0);
        assert(s.drop_first().len() == 0);
        assert(prod_pows(s.drop_first()) == 1);
        assert(prod_pows(s.drop_last()) == 1);
        assert(s[0] == s.last());
        assert(prod_pows(s) == pow(s[0].0 as int, s[0].1 as nat) * prod_pows(s.drop_first()));
    } else {
        lemma_prod_pows_last(s.drop_first());
        assert(prod_pows(s) == pow(s[0].0 as int, s[0].1 as nat) * prod_pows(s.drop_first()));
        assert(s.drop_first().drop_last() =~= s.drop_last().drop_first());
        assert(s.drop_first().last() == s.last());
        let h = pow(s[0].0 as int, s[0].1 as nat);
        let lastp = pow(s.last().0 as int, s.last().1 as nat);
        assert(h * (prod_pows(s.drop_last().drop_first()) * lastp) == (h * prod_pows(
            s.drop_last().drop_first(),
        )) * lastp) by (nonlinear_arith);
        assert(s.drop_last()[0] == s[0]);
        assert(prod_pows(s.drop_last()) == h * prod_pows(s.drop_last().drop_first()));
    }
}

/// Peeling the last factor off the divisor count.
proof fn lemma_prod_exps_last(s: Seq<(usize, usize)>)
    requires
        s.len() >= 1,
    ensures
        prod_exps(s) == prod_exps(s.drop_last()) * (s.last().1 + 1),
    decreases s.len(),
{
    if s.len() == 1 {
        assert(s.drop_last().len() == 0);
        assert(s.drop_first().len() == 0);
        assert(prod_exps(s.drop_first()) == 1);
        assert(prod_exps(s.drop_last()) == 1);
        assert(s[0] == s.last());
        assert(prod_exps(s) == (s[0].1 + 1) * prod_exps(s.drop_first()));
    } else {
        lemma_prod_exps_last(s.drop_first());
        assert(prod_exps(s) == (s[0].1 + 1) * prod_exps(s.drop_first()));
        assert(s.drop_first().drop_last() =~= s.drop_last().drop_first());
        assert(s.drop_first().last() == s.last());
        let h = s[0].1 + 1;
        let lastp = s.last().1 + 1;
        assert(h * (prod_exps(s.drop_last().drop_first()) * lastp) == (h * prod_exps(
            s.drop_last().drop_first(),
        )) * lastp) by (nonlinear_arith);
        assert(s.drop_last()[0] == s[0]);
        assert(prod_exps(s.drop_last()) == h * prod_exps(s.drop_last().drop_first()));
    }
}

/// A product of prime powers is positive.
proof fn lemma_prod_pows_pos(s: Seq<(usize, usize)>)
    requires
        forall|t: int| 0 <= t < s.len() ==> is_prime(#[trigger] s[t].0 as int),
    ensures
        prod_pows(s) >= 1,
    decreases s.len(),
{
    if s.len() > 0 {
        lemma_prod_pows_pos(s.drop_first());
        vstd::arithmetic::power::lemma_pow_positive(s[0].0 as int, s[0].1 as nat);
        assert(pow(s[0].0 as int, s[0].1 as nat) * prod_pows(s.drop_first()) >= 1)
            by (nonlinear_arith)
            requires
                pow(s[0].0 as int, s[0].1 as nat) >= 1,
                prod_pows(s.drop_first()) >= 1,
        ;
    }
}

/// A prime dividing a prime power is its base.
proof fn lemma_prime_divides_pow(q: int, p: int, k: nat)
    requires
        is_prime(q),
        is_prime(p),
        divides(q, pow(p, k)),
    ensures
        q == p,
    decreases k,
{
    reveal(pow);
    if k == 0 {
        lemma_divides_le(q, 1);
        assert(false);
    } else {
        vstd::arithmetic::power::lemma_pow_positive(p, (k - 1) as nat);
        crate::arith::lemma_euclid(q, p, pow(p, (k - 1) as nat));
        if divides(q, p) {
            lemma_divides_le(q, p);
            if q < p {
                assert(false);
            }
        } else {
            assert(pow(p, k) == p * pow(p, (k - 1) as nat));
            crate::arith::lemma_euclid(q, pow(p, (k - 1) as nat), p);
            if divides(q, pow(p, (k - 1) as nat)) {
                lemma_prime_divides_pow(q, p, (k - 1) as nat);
            } else {
                assert(divides(q, p * pow(p, (k - 1) as nat)));
                assert(false);
            }
        }
    }
}

/// A prime dividing a product of prime powers is one of the bases.
proof fn lemma_prime_divides_prod(s: Seq<(usize, usize)>, q: int)
    requires
        forall|t: int| 0 <= t < s.len() ==> is_prime(#[trigger] s[t].0 as int),
        is_prime(q),
        divides(q, prod_pows(s)),
    ensures
        exists|t: int| 0 <= t < s.len() && #[trigger] (s[t].0 as int) == q,
    decreases s.len(),
{
    if s.len() == 0 {
        lemma_divides_le(q, 1);
        assert(false);
    } else {
        let hp = pow(s[0].0 as int, s[0].1 as nat);
        vstd::arithmetic::power::lemma_pow_positive(s[0].0 as int, s[0].1 as nat);
        crate::arith::lemma_euclid(q, hp, prod_pows(s.drop_first()));
        if divides(q, hp) {
            lemma_prime_divides_pow(q, s[0].0 as int, s[0].1 as nat);
            assert(0 <= 0 < s.len() && (s[0].0 as int) == q);
        } else {
            lemma_prime_divides_prod(s.drop_first(), q);
            let t = choose|t: int|
                0 <= t < s.drop_first().len() && #[trigger] (s.drop_first()[t].0 as int) == q;
            assert(0 <= t + 1 < s.len() && (s[t + 1].0 as int) == q);
        }
    }
}

/// The divisors of a positive number form a finite set.
proof fn lemma_divisor_set_finite(n: int)
    requires
        n >= 1,
    ensures
        divisor_set(n).finite(),
        divisor_set(n).len() <= n,
{
    vstd::set_lib::lemma_int_range(1, n + 1);
    assert(divisor_set(n).subset_of(vstd::set_lib::set_int_range(1, n + 1)));
    vstd::set_lib::lemma_len_subset(divisor_set(n), vstd::set_lib::set_int_range(1, n + 1));
}

/// Disjoint finite sets add their sizes under union.
proof fn lemma_len_disjoint_union(s1: Set<int>, s2: Set<int>)
    requires
        s1.finite(),
        s2.finite(),
        s1.disjoint(s2),
    ensures
        s1.union(s2).finite(),
        s1.union(s2).len() == s1.len() + s2.len(),
    decreases s1.len(),
{
    broadcast use vstd::set::group_set_axioms;

    if s1.is_empty() {
        assert(s1.union(s2) =~= s2);
    } else {
        let a = s1.choose();
        assert(s1.contains(a));
        assert(!s2.contains(a));
        lemma_len_disjoint_union(s1.remove(a), s2);
        assert(s1.remove(a).union(s2) =~= s1.union(s2).remove(a));
        assert(s1.union(s2).contains(a));
        assert(s1.union(s2).remove(a).insert(a) =~= s1.union(s2));
    }
}

/// Scaling a finite set of integers by a positive factor keeps its size.
proof fn lemma_scaled_set_card(s: Set<int>, f: int)
    requires
        s.finite(),
        f >= 1,
    ensures
        s.map(|d: int| d * f).finite(),
        s.map(|d: int| d * f).len() == s.len(),
    decreases s.len(),
{
    broadcast use vstd::set::group_set_axioms;

    let g = |d: int| d * f;
    if s.is_empty() {
        assert(s.map(g) =~= Set::<int>::empty());
    } else {
        let a = s.choose();
        lemma_scaled_set_card(s.remove(a), f);
        assert(s.remove(a).map(g).insert(a * f) =~= s.map(g)) by {
            assert forall|y: int| s.map(g).contains(y) implies s.remove(a).map(g).insert(
                a * f,
            ).contains(y) by {
                let x = choose|x: int| s.contains(x) && #[trigger] g(x) == y;
                if x != a {
                    assert(s.remove(a).contains(x) && g(x) == y);
                }
            }
        }
        assert(!s.remove(a).map(g).contains(a * f)) by {
            if s.remove(a).map(g).contains(a * f) {
                let x = choose|x: int| s.remove(a).contains(x) && #[trigger] g(x) == a * f;
                lemma_mul_cancel(x, a, f);
            }
        }
    }
}

/// Adding one to the multiplicity of a prime missing from the cofactor
/// multiplies the number of divisors by the new count of available powers.
proof fn lemma_divisor_step(p: int, k: nat, mm: int)
    requires
        is_prime(p),
        mm >= 1,
        !divides(p, mm),
    ensures
        divisor_set(pow(p, k) * mm).finite(),
        divisor_set(pow(p, k) * mm).len() == (k + 1) * divisor_set(mm).len(),
    decreases k,
{
    reveal(pow);
    vstd::arithmetic::power::lemma_pow_positive(p, k);
    if k == 0 {
        assert(pow(p, k) * mm == 1 * mm);
        lemma_divisor_set_finite(mm);
        assert((k + 1) * divisor_set(mm).len() == divisor_set(mm).len()) by (nonlinear_arith)
            requires k == 0;
    } else {
        let pk = pow(p, k);
        let pk1 = pow(p, (k - 1) as nat);
        vstd::arithmetic::power::lemma_pow_positive(p, (k - 1) as nat);
        assert(pk == p * pk1);
        let n = pk * mm;
        let nprev = pk1 * mm;
        assert(n == p * nprev) by (nonlinear_arith)
            requires pk == p * pk1 && n == pk * mm && nprev == pk1 * mm;
        assert(nprev >= 1 && n >= nprev) by (nonlinear_arith)
            requires pk1 >= 1 && mm >= 1 && n == p * nprev && p >= 2 && nprev == pk1 * mm;
        lemma_divisor_step(p, (k - 1) as nat, mm);
        lemma_divisor_set_finite(mm);
        lemma_divisor_set_finite(n);
        lemma_divisor_set_finite(nprev);
        let a = divisor_set(nprev);
        let g = |d: int| d * pk;
        let b = divisor_set(mm).map(g);
        lemma_scaled_set_card(divisor_set(mm), pk);
        // the two parts are disjoint
        assert(a.disjoint(b)) by {
            assert forall|x: int| a.contains(x) implies !b.contains(x) by {
                if a.contains(x) && b.contains(x) {
                    let d = choose|d: int| divisor_set(mm).contains(d) && #[trigger] g(d) == x;
                    assert(divides(pk, x)) by {
                        assert(x == pk * d) by (nonlinear_arith)
                            requires x == d * pk;
                    }
                    lemma_divides_trans(pk, x, nprev);
                    let w = choose|w: int| nprev == #[trigger] (pk * w);
                    assert(mm * pk1 == (p * w) * pk1) by (nonlinear_arith)
                        requires
                            nprev == pk1 * mm,
                            nprev == pk * w,
                            pk == p * pk1,
                    ;
                    lemma_mul_cancel(mm, p * w, pk1);
                    assert(divides(p, mm));
                }
            }
        }
        // together they are exactly the divisors of n
        assert(a.union(b) =~= divisor_set(n)) by {
            assert forall|x: int| a.union(b).contains(x) implies divisor_set(n).contains(x) by {
                if a.contains(x) {
                    assert(divides(x, nprev));
                    assert(divides(nprev, n)) by {
                        assert(n == nprev * p) by (nonlinear_arith)
                            requires n == p * nprev;
                    }
                    lemma_divides_trans(x, nprev, n);
                    lemma_divides_le(x, n);
                } else {
                    let d = choose|d: int| divisor_set(mm).contains(d) && #[trigger] g(d) == x;
                    let e = choose|e: int| mm == #[trigger] (d * e);
                    assert(n == x * e) by (nonlinear_arith)
                        requires
                            n == pk * mm,
                            mm == d * e,
                            x == d * pk,
                    ;
                    assert(divides(x, n));
                    assert(x >= 1) by (nonlinear_arith)
                        requires x == d * pk && d >= 1 && pk >= 1;
                    lemma_divides_le(x, n);
                }
            }
            assert forall|x: int| divisor_set(n).contains(x) implies a.union(b).contains(x) by {
                let (j, dd) = lemma_extract_prime_power(p, x);
                assert(divides(dd, x)) by {
                    assert(x == dd * pow(p, j));
                }
                lemma_divides_trans(dd, x, n);
                assert(divides(dd, pow(p, k) * mm));
                lemma_coprime_divides_pow_cancel(dd, p, k, mm);
                lemma_divides_le(dd, mm);
                if j > k {
                    vstd::arithmetic::power::lemma_pow_adds(p, (k + 1) as nat, (j - k - 1) as nat);
                    vstd::arithmetic::power::lemma_pow_positive(p, (j - k - 1) as nat);
                    assert(divides(pow(p, (k + 1) as nat), pow(p, j)));
                    assert(divides(pow(p, j), x)) by {
                        assert(x == pow(p, j) * dd);
                    }
                    lemma_divides_trans(pow(p, (k + 1) as nat), pow(p, j), x);
                    lemma_divides_trans(pow(p, (k + 1) as nat), x, n);
                    let ww = choose|q: int| n == #[trigger] (pow(p, (k + 1) as nat) * q);
                    assert(pow(p, (k + 1) as nat) == p * pk);
                    assert(mm * pk == (p * ww) * pk) by (nonlinear_arith)
                        requires
                            n == pk * mm,
                            n == (p * pk) * ww,
                    ;
                    lemma_mul_cancel(mm, p * ww, pk);
                    assert(divides(p, mm));
                    assert(false);
                }
                if j == k {
                    assert(b.contains(x)) by {
                        assert(divisor_set(mm).contains(dd));
                        assert(g(dd) == x) by {
                            assert(dd * pow(p, j) == pow(p, j) * dd) by (nonlinear_arith);
                        }
                        assert(exists|d: int| divisor_set(mm).contains(d) && x == #[trigger] g(d))
                            by {
                            assert(divisor_set(mm).contains(dd) && x == g(dd));
                        }
                    }
                } else {
                    // x divides the previous layer
                    let e = choose|e: int| mm == #[trigger] (dd * e);
                    vstd::arithmetic::power::lemma_pow_adds(p, j, (k - 1 - j) as nat);
                    assert(nprev == x * (pow(p, (k - 1 - j) as nat) * e)) by (nonlinear_arith)
                        requires
                            nprev == pk1 * mm,
                            pk1 == pow(p, j) * pow(p, (k - 1 - j) as nat),
                            mm == dd * e,
                            x == pow(p, j) * dd,
                    ;
                    assert(divides(x, nprev));
                    lemma_divides_le(x, nprev);
                    assert(a.contains(x));
                }
            }
        }
        lemma_len_disjoint_union(a, b);
        assert((k + 1) * divisor_set(mm).len() == k * divisor_set(mm).len() + divisor_set(
            mm,
        ).len()) by (nonlinear_arith);
    }
}

/// The size of a complete, duplicate-free divisor list is the product of
/// the factorization's exponents, each plus one.
pub proof fn lemma_divisor_count(fs: Seq<(usize, usize)>, n: usize, ds: Seq<usize>)
    requires
        n >= 1,
        valid_factorization(fs, n as int),
        forall|t: int|
            0 <= t < ds.len() ==> 1 <= #[trigger] ds[t] <= n && divides(ds[t] as int, n as int),
        forall|e: usize| 1 <= e <= n && #[trigger] divides(e as int, n as int) ==> ds.contains(e),
        ds.no_duplicates(),
    ensures
        ds.len() == prod_exps(fs),
{
    let dsi = ds.map_values(|x: usize| x as int);
    assert(dsi.no_duplicates()) by {
        assert forall|i: int, j: int|
            0 <= i < dsi.len() && 0 <= j < dsi.len() && i != j implies dsi[i] != dsi[j] by {
            assert(ds[i] != ds[j]);
        }
    }
    dsi.unique_seq_to_set();
    assert(dsi.to_set() =~= divisor_set(n as int)) by {
        assert forall|x: int| dsi.to_set().contains(x) implies divisor_set(n as int).contains(
            x,
        ) by {
            let t = choose|t: int| 0 <= t < dsi.len() && dsi[t] == x;
            assert(ds[t] as int == x);
        }
        assert forall|x: int| divisor_set(n as int).contains(x) implies dsi.to_set().contains(
            x,
        ) by {
            let e = x as usize;
            assert(e as int == x);
            assert(ds.contains(e));
            let t = choose|t: int| 0 <= t < ds.len() && ds[t] == e;
            assert(dsi[t] == x);
            assert(dsi.contains(x));
        }
    }
    lemma_count_from_factorization(fs, n as int);
}

/// The divisor count predicted by a factorization is the true one.
proof fn lemma_count_from_factorization(fs: Seq<(usize, usize)>, n: int)
    requires
        n >= 1,
        valid_factorization(fs, n),
    ensures
        divisor_set(n).finite(),
        divisor_set(n).len() == prod_exps(fs),
    decreases fs.len(),
{
    if fs.len() == 0 {
        assert(n == 1);
        assert(divisor_set(1) =~= Set::<int>::empty().insert(1)) by {
            assert(1int == 1int * 1);
            assert(divides(1int, 1int));
        }
    } else {
        let p = fs.last().0 as int;
        let k = fs.last().1 as nat;
        let fsp = fs.drop_last();
        lemma_prod_pows_last(fs);
        lemma_prod_exps_last(fs);
        let mm = prod_pows(fsp);
        assert(forall|t: int|
            0 <= t < fsp.len() ==> is_prime(#[trigger] fsp[t].0 as int) && fsp[t].1 >= 1);
        lemma_prod_pows_pos(fsp);
        assert(valid_factorization(fsp, mm));
        assert(!divides(p, mm)) by {
            if divides(p, mm) {
                lemma_prime_divides_prod(fsp, p);
                let t = choose|t: int| 0 <= t < fsp.len() && #[trigger] (fsp[t].0 as int) == p;
                assert(fs[t].0 < fs.last().0);
            }
        }
        lemma_count_from_factorization(fsp, mm);
        lemma_divisor_step(p, k, mm);
        assert(pow(p, k) * mm == mm * pow(p, k)) by (nonlinear_arith);
        assert((k + 1) * prod_exps(fsp) == prod_exps(fsp) * (fs.last().1 + 1)) by (nonlinear_arith)
            requires k == fs.last().1 as nat;
    }
}

/// A prime power below the full multiplicity divides the number.
proof fn lemma_pow_mul_divides(p: int, j: nat, k: nat, m: int, n: int)
    requires
        j <= k,
        pow(p, k) * m == n,
    ensures
        divides(pow(p, j), n),
{
    vstd::arithmetic::power::lemma_pow_adds(p, j, (k - j) as nat);
    assert(n == pow(p, j) * (pow(p, (k - j) as nat) * m)) by (nonlinear_arith)
        requires
            pow(p, k) * m == n,
            pow(p, k) == pow(p, j) * pow(p, (k - j) as nat),
    ;
}

/// A divisor of the cofactor times a prime power below the multiplicity
/// divides the number.
proof fn lemma_divisor_times_pow_divides(p: int, j: nat, k: nat, d: int, m: int, n: int)
    requires
        j <= k,
        pow(p, k) * m == n,
        divides(d, m),
    ensures
        divides(d * pow(p, j), n),
{
    let e = choose|q: int| m == #[trigger] (d * q);
    vstd::arithmetic::power::lemma_pow_adds(p, j, (k - j) as nat);
    assert(n == (d * pow(p, j)) * (e * pow(p, (k - j) as nat))) by (nonlinear_arith)
        requires
            pow(p, k) * m == n,
            pow(p, k) == pow(p, j) * pow(p, (k - j) as nat),
            m == d * e,
    ;
}

/// Splitting a flat index into its row and column.
proof fn lemma_index_decompose(t: int, w: int, len: int)
    requires
        w >= 1,
        0 <= t < len * w,
    ensures
        0 <= t / w < len,
        0 <= t % w < w,
        t == (t / w) * w + (t % w),
{
    lemma_fundamental_div_mod(t, w);
    vstd::arithmetic::div_mod::lemma_mod_division_less_than_divisor(t, w);
    vstd::arithmetic::div_mod::lemma_div_pos_is_pos(t, w);
    vstd::arithmetic::mul::lemma_mul_is_commutative(t / w, w);
    assert(t / w < len) by (nonlinear_arith)
        requires
            t == w * (t / w) + t % w,
            0 <= t % w < w,
            t < len * w,
            w >= 1,
    ;
}

/// Products of a `p`-free divisor of `m` with a power of `p` are distinct
/// unless the factors agree.
proof fn lemma_distinct_products(p: int, m: int, d1: int, d2: int, j1: nat, j2: nat)
    requires
        is_prime(p),
        m >= 1,
        d1 >= 1,
        d2 >= 1,
        divides(d1, m),
        divides(d2, m),
        !divides(p, m),
        d1 * pow(p, j1) == d2 * pow(p, j2),
    ensures
        d1 == d2,
        j1 == j2,
    decreases j1,
{
    if j1 > j2 {
        lemma_distinct_products(p, m, d2, d1, j2, j1);
    } else {
        vstd::arithmetic::power::lemma_pow_adds(p, (j2 - j1) as nat, j1);
        vstd::arithmetic::power::lemma_pow_positive(p, j1);
        assert((d2 * pow(p, (j2 - j1) as nat)) * pow(p, j1) == d1 * pow(p, j1))
            by (nonlinear_arith)
            requires
                d1 * pow(p, j1) == d2 * pow(p, j2),
                pow(p, j2) == pow(p, (j2 - j1) as nat) * pow(p, j1),
        ;
        lemma_mul_cancel(d2 * pow(p, (j2 - j1) as nat), d1, pow(p, j1));
        if j1 < j2 {
            reveal(pow);
            assert(pow(p, (j2 - j1) as nat) == p * pow(p, (j2 - j1 - 1) as nat));
            assert(d1 == p * (d2 * pow(p, (j2 - j1 - 1) as nat))) by (nonlinear_arith)
                requires
                    d1 == d2 * pow(p, (j2 - j1) as nat),
                    pow(p, (j2 - j1) as nat) == p * pow(p, (j2 - j1 - 1) as nat),
            ;
            assert(divides(p, d1));
            lemma_divides_trans(p, d1, m);
            assert(false);
        }
        vstd::arithmetic::power::lemma_pow0(p);
        assert(d1 == d2 * 1);
    }
}

} // verus!
