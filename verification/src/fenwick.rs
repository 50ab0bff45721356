//! A Fenwick tree (binary indexed tree): array-backed prefix sums with
//! point updates, both in logarithmic time.
//!
//! The tree is modelled by the sequence of its logical elements (`self@`);
//! cell `j` of the backing array (for `1 <= j <= size`) holds the sum of the
//! logical elements with indices in `[j & (j-1), j)`.

use vstd::prelude::*;

verus! {

/// Sum of `s[a..b)`, as an unbounded integer.
pub open spec fn rsum(s: Seq<int>, a: int, b: int) -> int
    decreases b - a,
{
    if a >= b {
        0
    } else {
        s[a] + rsum(s, a + 1, b)
    }
}

/// Index of the first logical element covered by array cell `j`.
pub open spec fn node_low(j: usize) -> usize {
    j & ((j - 1) as usize)
}

/// Every range sum of `s` fits comfortably in an `i64`, so that no
/// tree operation can overflow.
pub open spec fn fits(s: Seq<int>) -> bool {
    forall|a: int, b: int|
        0 <= a <= b <= s.len() ==> -(i64::MAX as int) <= #[trigger] rsum(s, a, b) <= i64::MAX as int
}

/// Clamped prefix sum: the sum of the elements with index `< k`,
/// where `k` larger than the length counts the whole sequence.
pub open spec fn prefix_sum(s: Seq<int>, k: int) -> int {
    rsum(s, 0, if k <= s.len() { k } else { s.len() as int })
}

/// Splitting a range sum at an interior point.
///
/// This is the additivity law for range queries: the sum over `[a,b)` plus
/// the sum over `[b,c)` is the sum over `[a,c)`.
pub proof fn lemma_rsum_concat(s: Seq<int>, a: int, b: int, c: int)
    requires
        a <= b <= c,
    ensures
        rsum(s, a, b) + rsum(s, b, c) == rsum(s, a, c),
    decreases b - a,
{
    if a < b {
        lemma_rsum_concat(s, a + 1, b, c);
    }
}

/// Updating one element changes exactly the range sums whose range holds it,
/// by exactly the difference.
pub proof fn lemma_rsum_update(s: Seq<int>, i: int, v: int, a: int, b: int)
    requires
        0 <= i < s.len(),
        0 <= a <= b <= s.len(),
    ensures
        rsum(s.update(i, v), a, b) == rsum(s, a, b) + if a <= i < b {
            v - s[i]
        } else {
            0
        },
    decreases b - a,
{
    if a < b {
        lemma_rsum_update(s, i, v, a + 1, b);
    }
}

/// A one-element range sums to that element.
pub proof fn lemma_rsum_single(s: Seq<int>, i: int)
    requires
        0 <= i < s.len(),
    ensures
        rsum(s, i, i + 1) == s[i],
{
    assert(rsum(s, i + 1, i + 1) == 0);
}

/// Range sums over an all-zero sequence are zero.
pub proof fn lemma_rsum_zero(s: Seq<int>, a: int, b: int)
    requires
        forall|i: int| 0 <= i < s.len() ==> s[i] == 0,
        0 <= a,
        b <= s.len(),
    ensures
        rsum(s, a, b) == 0,
    decreases b - a,
{
    if a < b {
        lemma_rsum_zero(s, a + 1, b);
    }
}

/// For a nonzero cell index, the covered range is nonempty.
proof fn lemma_node_low_lt(i: usize)
    requires
        1 <= i,
    ensures
        node_low(i) < i,
{
    assert(i >= 1 ==> (i & ((i - 1) as usize)) < i) by (bit_vector);
}

/// One node of the update walk lies strictly between two consecutive
/// visited cells; its range starts at or after the earlier cell.
proof fn lemma_node_between(i: usize, j: usize, nxt: usize)
    requires
        1 <= i,
        i <= usize::MAX / 2,
        nxt == i + (i - node_low(i)),
        i < j < nxt,
    ensures
        node_low(j) >= i,
{
    assert((i < j && j < nxt && nxt == i + (i - (i & ((i - 1) as usize))) && 1 <= i) ==> (j & ((j
        - 1) as usize)) >= i) by (bit_vector);
}

/// Stepping the update walk from cell `i` to `i + lowbit(i)` keeps the
/// updated position inside the new cell's range.
proof fn lemma_step_up(i: usize, pos: usize, nxt: usize)
    requires
        1 <= i,
        i <= usize::MAX / 2,
        node_low(i) < pos <= i,
        nxt == i + (i - node_low(i)),
    ensures
        i < nxt,
        node_low(nxt) <= node_low(i),
        forall|j: usize| i < j < nxt ==> node_low(j) >= i,
{
    lemma_node_low_lt(i);
    assert((1 <= i && nxt == i + (i - (i & ((i - 1) as usize)))) ==> ((nxt & ((nxt - 1) as usize))
        <= (i & ((i - 1) as usize)))) by (bit_vector);
    assert forall|j: usize| i < j < nxt implies node_low(j) >= i by {
        lemma_node_between(i, j, nxt);
    }
}

/// A Fenwick tree over `i64` elements.
pub struct FenwickTree {
    array: Vec<i64>,
    elems: Ghost<Seq<int>>,
}

impl View for FenwickTree {
    type V = Seq<int>;

    closed spec fn view(&self) -> Seq<int> {
        self.elems@
    }
}

impl FenwickTree {
    /// Internal consistency: the backing array has one sentinel cell plus
    /// one cell per element, each cell holding its range's sum, and all
    /// range sums fit in an `i64`.
    pub closed spec fn wf(self) -> bool {
        &&& self.array.len() == self.elems@.len() + 1
        &&& self.elems@.len() <= usize::MAX / 2
        &&& fits(self.elems@)
        &&& forall|j: usize|
            1 <= j <= self.elems@.len() ==> self.array@[j as int] as int == rsum(
                self.elems@,
                #[trigger] node_low(j) as int,
                j as int,
            )
    }

    /// Constructs a new Fenwick tree of given `size`, with elements initialized to 0.
    /// The elements will be indexed from 0 to `size`-1.
    pub fn new(size: usize) -> (r: FenwickTree)
        requires
            size <= usize::MAX / 2,
        ensures
            r.wf(),
            r@ == Seq::new(size as nat, |i: int| 0int),
    {
        let mut array: Vec<i64> = Vec::new();
        let mut k: usize = 0;
        while k < size + 1
            invariant
                k <= size + 1,
                size <= usize::MAX / 2,
                array@.len() == k,
                forall|t: int| 0 <= t < k ==> array@[t] == 0i64,
            decreases size + 1 - k,
        {
            array.push(0i64);
            k = k + 1;
        }
        let ghost elems = Seq::new(size as nat, |i: int| 0int);
        let r = FenwickTree { array, elems: Ghost(elems) };
        proof {
            assert forall|a: int, b: int| 0 <= a <= b <= elems.len() implies -(i64::MAX as int)
                <= #[trigger] rsum(elems, a, b) <= i64::MAX as int by {
                lemma_rsum_zero(elems, a, b);
            }
            assert forall|j: usize| 1 <= j <= elems.len() implies r.array@[j as int] as int == rsum(
                elems,
                #[trigger] node_low(j) as int,
                j as int,
            ) by {
                lemma_node_low_lt(j);
                lemma_rsum_zero(elems, node_low(j) as int, j as int);
            }
        }
        r
    }

    /// Returns the number of elements in the tree.
    pub fn len(&self) -> (r: usize)
        requires
            self.wf(),
        ensures
            r == self@.len(),
    {
        self.array.len() - 1
    }

    /// Increments the element at `index` by `amount`.
    pub fn increment(&mut self, index: usize, amount: i64)
        requires
            old(self).wf(),
            index < old(self)@.len(),
            fits(old(self)@.update(index as int, old(self)@[index as int] + amount)),
        ensures
            final(self).wf(),
            final(self)@ == old(self)@.update(index as int, old(self)@[index as int] + amount),
    {
        let ghost s0 = self.elems@;
        let ghost s1 = s0.update(index as int, s0[index as int] + amount);
        proof {
            self.elems@ = s1;
        }
        let size = self.array.len() - 1;
        let mut i: usize = index + 1;
        proof {
            lemma_node_low_lt(i);
            assert(node_low(i) <= i - 1);
            assert forall|j: usize| 1 <= j <= size && j < i implies self.array@[j as int] as int
                == rsum(s1, #[trigger] node_low(j) as int, j as int) by {
                lemma_node_low_lt(j);
                lemma_rsum_update(s0, index as int, s0[index as int] + amount, node_low(j) as int, j as int);
            }
        }
        while i <= size
            invariant
                self.elems@ == s1,
                s1 == s0.update(index as int, s0[index as int] + amount),
                (index as int) < s0.len(),
                s0.len() == size,
                size <= usize::MAX / 2,
                self.array.len() == size + 1,
                fits(s0),
                fits(s1),
                1 <= i,
                node_low(i) < index + 1 <= i,
                forall|j: usize|
                    1 <= j <= size && j < i ==> self.array@[j as int] as int == rsum(
                        s1,
                        #[trigger] node_low(j) as int,
                        j as int,
                    ),
                forall|j: usize|
                    i <= j <= size ==> self.array@[j as int] as int == rsum(
                        s0,
                        #[trigger] node_low(j) as int,
                        j as int,
                    ),
            decreases 2 * size - i,
        {
            proof {
                lemma_node_low_lt(i);
                lemma_rsum_update(s0, index as int, s0[index as int] + amount, node_low(i) as int, i as int);
                assert(0 <= node_low(i) as int <= i as int <= s1.len());
                assert(rsum(s1, node_low(i) as int, i as int) == rsum(s0, node_low(i) as int, i as int) + amount);
            }
            let newamount = self.array[i] + amount;
            self.array.set(i, newamount);
            let prev: usize = i & (i - 1);
            let lb: usize = i - prev;
            let nxt: usize = i + lb;
            proof {
                lemma_step_up(i, (index + 1) as usize, nxt);
                assert forall|j: usize| 1 <= j <= size && j < nxt implies self.array@[j as int] as int
                    == rsum(s1, #[trigger] node_low(j) as int, j as int) by {
                    if i < j {
                        lemma_node_low_lt(j);
                        lemma_rsum_update(s0, index as int, s0[index as int] + amount, node_low(j) as int, j as int);
                    }
                }
            }
            i = nxt;
        }
        proof {
            assert(self@ =~= s1);
        }
    }

    /// Returns the sum of elements from 0 to index-1.
    pub fn sum_to(&self, index: usize) -> (r: i64)
        requires
            self.wf(),
        ensures
            r as int == prefix_sum(self@, index as int),
    {
        let size = self.array.len() - 1;
        let mut i: usize = if index > size {
            size
        } else {
            index
        };
        let ghost i0 = i as int;
        let mut total: i64 = 0;
        proof {
            assert(rsum(self@, i0, i0) == 0);
        }
        while i > 0
            invariant
                self.wf(),
                self.array.len() == size + 1,
                size == self@.len(),
                0 <= i as int <= i0 <= size as int,
                total as int == rsum(self@, i as int, i0),
            decreases i,
        {
            proof {
                lemma_node_low_lt(i);
                lemma_rsum_concat(self@, node_low(i) as int, i as int, i0);
                assert(0 <= node_low(i) as int <= i0 <= self@.len());
            }
            total = total + self.array[i];
            i = i & (i - 1);
        }
        total
    }

    /// Returns the sum of all of the elements in the tree.
    pub fn sum(&self) -> (r: i64)
        requires
            self.wf(),
        ensures
            r as int == rsum(self@, 0, self@.len() as int),
    {
        self.sum_to(self.array.len())
    }

    /// Returns the sum of the elements with indices in the range [`start`,`end`).
    ///
    /// Out-of-range endpoints are clamped to the number of elements, as in
    /// `sum_to`; when `start > end` the result is the negated sum of the
    /// complementary range.
    pub fn sum_from_to(&self, start: usize, end: usize) -> (r: i64)
        requires
            self.wf(),
        ensures
            r as int == prefix_sum(self@, end as int) - prefix_sum(self@, start as int),
    {
        let hi = self.sum_to(end);
        let lo = self.sum_to(start);
        proof {
            let n = self@.len() as int;
            let ce: int = if end as int <= n { end as int } else { n };
            let cs: int = if start as int <= n { start as int } else { n };
            if cs <= ce {
                lemma_rsum_concat(self@, 0, cs, ce);
                assert(0 <= cs <= ce <= self@.len());
            } else {
                lemma_rsum_concat(self@, 0, ce, cs);
                assert(0 <= ce <= cs <= self@.len());
            }
        }
        hi - lo
    }

    /// Returns the element at `index`, or zero when `index` is out of range.
    pub fn get(&self, index: usize) -> (r: i64)
        requires
            self.wf(),
        ensures
            r as int == if (index as int) < self@.len() {
                self@[index as int]
            } else {
                0
            },
    {
        if index >= self.array.len() - 1 {
            0
        } else {
            let r = self.sum_from_to(index, index + 1);
            proof {
                lemma_rsum_concat(self@, 0, index as int, index + 1);
                lemma_rsum_single(self@, index as int);
            }
            r
        }
    }

    /// Sets the element at `index` to `value`.
    pub fn set(&mut self, index: usize, value: i64)
        requires
            old(self).wf(),
            index < old(self)@.len(),
            fits(old(self)@.update(index as int, value as int)),
            i64::MIN as int <= value - old(self)@[index as int] <= i64::MAX as int,
        ensures
            final(self).wf(),
            final(self)@ == old(self)@.update(index as int, value as int),
    {
        let cur = self.get(index);
        proof {
            lemma_rsum_single(old(self)@, index as int);
            assert(rsum(old(self)@, index as int, index + 1 as int) == old(self)@[index as int]);
        }
        let inc = value - cur;
        proof {
            assert(old(self)@.update(index as int, old(self)@[index as int] + inc) =~= old(
                self,
            )@.update(index as int, value as int));
        }
        self.increment(index, inc);
    }
}

/// A freshly constructed tree reads zero everywhere: every element is zero
/// and every prefix sum (hence the total sum) is zero.
pub proof fn lemma_new_tree_zero(s: Seq<int>, k: int, i: int)
    requires
        s == Seq::new(s.len(), |j: int| 0int),
    ensures
        prefix_sum(s, k) == 0,
        0 <= i < s.len() ==> s[i] == 0,
{
    let b: int = if k <= s.len() {
        k
    } else {
        s.len() as int
    };
    if 0 <= b {
        lemma_rsum_zero(s, 0, b);
    }
}

/// Incrementing one element raises exactly the prefix sums past it by the
/// increment, changes that element by the increment, and leaves every other
/// element unchanged.
pub proof fn lemma_increment_effect(s: Seq<int>, i: int, v: int, k: int)
    requires
        0 <= i < s.len(),
    ensures
        prefix_sum(s.update(i, s[i] + v), k) == prefix_sum(s, k) + if i < k {
            v
        } else {
            0
        },
        s.update(i, s[i] + v)[i] == s[i] + v,
        forall|j: int| 0 <= j < s.len() && j != i ==> s.update(i, s[i] + v)[j] == s[j],
{
    let b: int = if k <= s.len() {
        k
    } else {
        s.len() as int
    };
    if 0 <= b {
        lemma_rsum_update(s, i, s[i] + v, 0, b);
    } else {
        assert(prefix_sum(s.update(i, s[i] + v), k) == 0);
        assert(prefix_sum(s, k) == 0);
    }
}

/// Setting an element and then reading it gives the value back, whatever
/// the element held before.
pub proof fn lemma_set_then_get(s: Seq<int>, i: int, v: int)
    requires
        0 <= i < s.len(),
    ensures
        s.update(i, v)[i] == v,
{
}

/// Range sums are additive: the sum over `[a,b)` plus the sum over `[b,c)`
/// is the sum over `[a,c)`.
pub proof fn lemma_sum_range_additive(s: Seq<int>, a: int, b: int, c: int)
    requires
        a <= b <= c,
    ensures
        rsum(s, a, b) + rsum(s, b, c) == rsum(s, a, c),
{
    lemma_rsum_concat(s, a, b, c);
}

} // verus!
