//! Finite sums over the integer range `0..n` and the facts about them that
//! the lattice proofs need (congruence, additivity, cyclic rotation, and the
//! change caused by altering one or two terms).

use vstd::prelude::*;

verus! {

/// `f(0) + f(1) + ... + f(n - 1)`; zero for `n <= 0`.
pub open spec fn sum(n: int, f: spec_fn(int) -> int) -> int
    decreases n,
{
    if n <= 0 {
        0
    } else {
        sum(n - 1, f) + f(n - 1)
    }
}

/// Cyclic successor on `0..n`.
pub open spec fn succ(x: int, n: int) -> int {
    if x + 1 < n {
        x + 1
    } else {
        0
    }
}

/// Cyclic predecessor on `0..n`.
pub open spec fn pred(x: int, n: int) -> int {
    if x <= 0 {
        n - 1
    } else {
        x - 1
    }
}

/// `succ` and `pred` stay in `0..n`.
pub proof fn lemma_succ_pred_range(x: int, n: int)
    requires
        0 <= x < n,
    ensures
        0 <= succ(x, n) < n,
        0 <= pred(x, n) < n,
{
}

/// Sums of functions that agree on `0..n` are equal.
pub proof fn lemma_sum_congr(n: int, f: spec_fn(int) -> int, g: spec_fn(int) -> int)
    requires
        forall|x: int| 0 <= x < n ==> #[trigger] f(x) == g(x),
    ensures
        sum(n, f) == sum(n, g),
    decreases n,
{
    if n > 0 {
        lemma_sum_congr(n - 1, f, g);
    }
}

/// The sum of a pointwise sum is the sum of the sums.
pub proof fn lemma_sum_add(n: int, f: spec_fn(int) -> int, g: spec_fn(int) -> int)
    ensures
        sum(n, |x: int| f(x) + g(x)) == sum(n, f) + sum(n, g),
    decreases n,
{
    if n > 0 {
        lemma_sum_add(n - 1, f, g);
    }
}

/// Negating every term negates the sum.
pub proof fn lemma_sum_neg(n: int, f: spec_fn(int) -> int)
    ensures
        sum(n, |x: int| -f(x)) == -sum(n, f),
    decreases n,
{
    if n > 0 {
        lemma_sum_neg(n - 1, f);
    }
}

/// A sum of terms bounded by `b` in absolute value is bounded by `n * b`.
pub proof fn lemma_sum_bound(n: int, f: spec_fn(int) -> int, b: int)
    requires
        0 <= n,
        forall|x: int| 0 <= x < n ==> -b <= #[trigger] f(x) <= b,
    ensures
        -(n * b) <= sum(n, f) <= n * b,
    decreases n,
{
    if n > 0 {
        lemma_sum_bound(n - 1, f, b);
        assert((n - 1) * b + b == n * b) by (nonlinear_arith);
    }
}

/// A sum of `n` copies of `c` is `n * c`.
pub proof fn lemma_sum_const(n: int, f: spec_fn(int) -> int, c: int)
    requires
        0 <= n,
        forall|x: int| 0 <= x < n ==> #[trigger] f(x) == c,
    ensures
        sum(n, f) == n * c,
    decreases n,
{
    if n > 0 {
        lemma_sum_const(n - 1, f, c);
        assert((n - 1) * c + c == n * c) by (nonlinear_arith);
    }
}

/// Splitting off the first term.
pub proof fn lemma_sum_first(n: int, f: spec_fn(int) -> int)
    requires
        1 <= n,
    ensures
        sum(n, f) == f(0) + sum(n - 1, |x: int| f(x + 1)),
    decreases n,
{
    let g = |x: int| f(x + 1);
    if n > 1 {
        lemma_sum_first(n - 1, f);
        assert(sum(n - 1, g) == sum(n - 2, g) + g(n - 2));
        assert(sum(n, f) == sum(n - 1, f) + f(n - 1));
        assert(g(n - 2) == f(n - 1));
        assert(sum(n, f) == f(0) + sum(n - 1, g));
    } else {
        assert(sum(0, f) == 0);
        assert(sum(1, f) == f(0));
        assert(sum(0, g) == 0);
    }
}

/// A cyclic shift of the index leaves the sum unchanged.
pub proof fn lemma_sum_rotate(n: int, f: spec_fn(int) -> int)
    requires
        1 <= n,
    ensures
        sum(n, |x: int| f(succ(x, n))) == sum(n, f),
{
    let g = |x: int| f(succ(x, n));
    assert(sum(n, g) == sum(n - 1, g) + f(0));
    lemma_sum_congr(n - 1, g, |x: int| f(x + 1));
    lemma_sum_first(n, f);
}

/// Changing a single term at `p` changes the sum by exactly that term's change.
pub proof fn lemma_sum_diff_one(n: int, f: spec_fn(int) -> int, g: spec_fn(int) -> int, p: int)
    requires
        0 <= p < n,
        forall|x: int| 0 <= x < n && x != p ==> #[trigger] f(x) == g(x),
    ensures
        sum(n, f) - sum(n, g) == f(p) - g(p),
    decreases n,
{
    if n - 1 == p {
        lemma_sum_congr(n - 1, f, g);
    } else {
        lemma_sum_diff_one(n - 1, f, g, p);
    }
}

/// Changing the terms at two distinct places `p` and `q`.
pub proof fn lemma_sum_diff_two(
    n: int,
    f: spec_fn(int) -> int,
    g: spec_fn(int) -> int,
    p: int,
    q: int,
)
    requires
        0 <= p < n,
        0 <= q < n,
        p != q,
        forall|x: int| 0 <= x < n && x != p && x != q ==> #[trigger] f(x) == g(x),
    ensures
        sum(n, f) - sum(n, g) == (f(p) - g(p)) + (f(q) - g(q)),
{
    let h = |x: int| if x == q { g(x) } else { f(x) };
    lemma_sum_diff_one(n, f, h, q);
    lemma_sum_diff_one(n, h, g, p);
}

} // verus!
