//! Finite sums over index ranges, and the weight sums that the Huffman
//! construction is stated over.
use vstd::prelude::*;

verus! {

/// `f(0) + f(1) + ... + f(j - 1)`.
pub open spec fn index_sum(f: spec_fn(int) -> nat, j: int) -> nat
    decreases j,
{
    if j <= 0 {
        0
    } else {
        index_sum(f, j - 1) + f(j - 1)
    }
}

/// The sum of all weights.
pub open spec fn weight_sum(ws: Seq<u32>) -> nat {
    index_sum(|t: int| ws[t] as nat, ws.len() as int)
}

/// How many weights are not zero.
pub open spec fn nonzero_count(ws: Seq<u32>) -> nat {
    index_sum(|t: int| if ws[t] > 0 { 1nat } else { 0nat }, ws.len() as int)
}

/// Sums of functions that agree on the range are equal.
pub proof fn lemma_index_sum_ext(f: spec_fn(int) -> nat, g: spec_fn(int) -> nat, j: int)
    requires
        forall|t: int| 0 <= t < j ==> #[trigger] f(t) == g(t),
    ensures
        index_sum(f, j) == index_sum(g, j),
    decreases j,
{
    if j > 0 {
        lemma_index_sum_ext(f, g, j - 1);
    }
}

/// Changing one term changes the sum by the difference.
pub proof fn lemma_index_sum_point(f: spec_fn(int) -> nat, g: spec_fn(int) -> nat, p: int, j: int)
    requires
        0 <= p < j,
        forall|t: int| 0 <= t < j && t != p ==> #[trigger] f(t) == g(t),
    ensures
        index_sum(g, j) + f(p) == index_sum(f, j) + g(p),
    decreases j,
{
    if p == j - 1 {
        lemma_index_sum_ext(f, g, j - 1);
    } else {
        lemma_index_sum_point(f, g, p, j - 1);
    }
}

/// A sum of naturals is at least any of its terms.
pub proof fn lemma_index_sum_ge(f: spec_fn(int) -> nat, p: int, j: int)
    requires
        0 <= p < j,
    ensures
        f(p) <= index_sum(f, j),
    decreases j,
{
    if p < j - 1 {
        lemma_index_sum_ge(f, p, j - 1);
    }
}

/// A sum of naturals is at least any two of its terms together.
pub proof fn lemma_index_sum_ge2(f: spec_fn(int) -> nat, p: int, q: int, j: int)
    requires
        0 <= p < j,
        0 <= q < j,
        p != q,
    ensures
        f(p) + f(q) <= index_sum(f, j),
    decreases j,
{
    if p == j - 1 {
        lemma_index_sum_ge(f, q, j - 1);
    } else if q == j - 1 {
        lemma_index_sum_ge(f, p, j - 1);
    } else {
        lemma_index_sum_ge2(f, p, q, j - 1);
    }
}

/// Termwise smaller, smaller sum; strictly so when one term is strictly smaller.
pub proof fn lemma_index_sum_mono(f: spec_fn(int) -> nat, g: spec_fn(int) -> nat, p: int, j: int)
    requires
        forall|t: int| 0 <= t < j ==> #[trigger] f(t) <= g(t),
    ensures
        index_sum(f, j) <= index_sum(g, j),
        0 <= p < j && f(p) < g(p) ==> index_sum(f, j) < index_sum(g, j),
    decreases j,
{
    if j > 0 {
        lemma_index_sum_mono(f, g, p, j - 1);
        assert(f(j - 1) <= g(j - 1));
    }
}

/// A constant factor comes out of the sum.
pub proof fn lemma_index_sum_scale(f: spec_fn(int) -> nat, g: spec_fn(int) -> nat, c: nat, j: int)
    requires
        forall|t: int| 0 <= t < j ==> #[trigger] f(t) == c * g(t),
    ensures
        index_sum(f, j) == c * index_sum(g, j),
    decreases j,
{
    if j > 0 {
        lemma_index_sum_scale(f, g, c, j - 1);
        assert(f(j - 1) == c * g(j - 1));
        let a = index_sum(g, j - 1);
        let b = g(j - 1);
        assert(index_sum(g, j) == a + b);
        assert(index_sum(f, j) == index_sum(f, j - 1) + f(j - 1));
        assert(c * (a + b) == c * a + c * b) by (nonlinear_arith);
    } else {
        assert(c * 0 == 0);
    }
}

/// Terms that are zero from `j` on add nothing.
pub proof fn lemma_index_sum_tail_zero(f: spec_fn(int) -> nat, j: int, k: int)
    requires
        0 <= j <= k,
        forall|t: int| j <= t < k ==> #[trigger] f(t) == 0,
    ensures
        index_sum(f, k) == index_sum(f, j),
    decreases k,
{
    if k > j {
        lemma_index_sum_tail_zero(f, j, k - 1);
        assert(f(k - 1) == 0);
    }
}

/// A sum of `j` terms each at most one is at most `j`.
pub proof fn lemma_index_sum_count_bound(f: spec_fn(int) -> nat, j: int)
    requires
        forall|t: int| 0 <= t < j ==> #[trigger] f(t) <= 1,
    ensures
        j >= 0 ==> index_sum(f, j) <= j,
    decreases j,
{
    if j > 0 {
        lemma_index_sum_count_bound(f, j - 1);
        assert(f(j - 1) <= 1);
    }
}

/// A sum of `j` equal terms `c`.
pub proof fn lemma_index_sum_const(f: spec_fn(int) -> nat, c: nat, j: int)
    requires
        forall|t: int| 0 <= t < j ==> #[trigger] f(t) == c,
    ensures
        j >= 0 ==> index_sum(f, j) == c * j,
    decreases j,
{
    if j > 0 {
        lemma_index_sum_const(f, c, j - 1);
        assert(f(j - 1) == c);
        assert(c * (j - 1) + c == c * j) by (nonlinear_arith);
    } else if j == 0 {
        assert(c * 0 == 0);
    }
}

/// A longer sum of naturals is no smaller.
pub proof fn lemma_index_sum_prefix_le(f: spec_fn(int) -> nat, n: int, m: int)
    requires
        n <= m,
    ensures
        index_sum(f, n) <= index_sum(f, m),
    decreases m - n,
{
    if n < m {
        lemma_index_sum_prefix_le(f, n, m - 1);
        if m - 1 < 0 {
            assert(index_sum(f, m) == 0);
        }
    }
}

/// A sum of zeros.
pub proof fn lemma_index_sum_zero(f: spec_fn(int) -> nat, j: int)
    requires
        forall|t: int| 0 <= t < j ==> #[trigger] f(t) == 0,
    ensures
        index_sum(f, j) == 0,
    decreases j,
{
    if j > 0 {
        lemma_index_sum_zero(f, j - 1);
    }
}

} // verus!
