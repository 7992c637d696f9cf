//! Finite sums of integers, the bookkeeping behind flow values and flow costs.
use vstd::prelude::*;

verus! {

/// `f(0) + f(1) + ... + f(n - 1)`.
pub open spec fn sum(n: int, f: spec_fn(int) -> int) -> int
    decreases n,
{
    if n <= 0 {
        0
    } else {
        sum(n - 1, f) + f(n - 1)
    }
}

/// Equal summands, equal sums.
pub proof fn lemma_sum_eq(n: int, f: spec_fn(int) -> int, g: spec_fn(int) -> int)
    requires
        forall|i: int| 0 <= i < n ==> #[trigger] f(i) == g(i),
    ensures
        sum(n, f) == sum(n, g),
    decreases n,
{
    if n > 0 {
        lemma_sum_eq(n - 1, f, g);
    }
}

/// Smaller summands, a smaller sum.
pub proof fn lemma_sum_le(n: int, f: spec_fn(int) -> int, g: spec_fn(int) -> int)
    requires
        forall|i: int| 0 <= i < n ==> #[trigger] f(i) <= g(i),
    ensures
        sum(n, f) <= sum(n, g),
    decreases n,
{
    if n > 0 {
        lemma_sum_le(n - 1, f, g);
    }
}

/// Zeros sum to zero.
pub proof fn lemma_sum_zero(n: int, f: spec_fn(int) -> int)
    requires
        forall|i: int| 0 <= i < n ==> #[trigger] f(i) == 0,
    ensures
        sum(n, f) == 0,
    decreases n,
{
    if n > 0 {
        lemma_sum_zero(n - 1, f);
    }
}

/// Changing one summand changes the sum by the same amount.
pub proof fn lemma_sum_point(n: int, f: spec_fn(int) -> int, g: spec_fn(int) -> int, k: int)
    requires
        0 <= k < n,
        forall|i: int| 0 <= i < n && i != k ==> #[trigger] f(i) == g(i),
    ensures
        sum(n, g) == sum(n, f) - f(k) + g(k),
    decreases n,
{
    if k == n - 1 {
        lemma_sum_eq(n - 1, f, g);
    } else {
        lemma_sum_point(n - 1, f, g, k);
    }
}

/// Sums can be added term by term.
pub proof fn lemma_sum_add(n: int, f: spec_fn(int) -> int, g: spec_fn(int) -> int)
    ensures
        sum(n, |i: int| f(i) + g(i)) == sum(n, f) + sum(n, g),
    decreases n,
{
    if n > 0 {
        lemma_sum_add(n - 1, f, g);
    }
}

/// Sums can be subtracted term by term.
pub proof fn lemma_sum_sub(n: int, f: spec_fn(int) -> int, g: spec_fn(int) -> int)
    ensures
        sum(n, |i: int| f(i) - g(i)) == sum(n, f) - sum(n, g),
    decreases n,
{
    if n > 0 {
        lemma_sum_sub(n - 1, f, g);
    }
}

/// A factor can be taken out of a sum.
pub proof fn lemma_sum_scale(n: int, c: int, f: spec_fn(int) -> int)
    ensures
        sum(n, |i: int| c * f(i)) == c * sum(n, f),
    decreases n,
{
    if n > 0 {
        lemma_sum_scale(n - 1, c, f);
        assert(c * (sum(n - 1, f) + f(n - 1)) == c * sum(n - 1, f) + c * f(n - 1))
            by (nonlinear_arith);
    } else {
        assert(c * 0 == 0) by (nonlinear_arith);
    }
}

/// A sum with a single summand that may differ from zero.
pub proof fn lemma_sum_single(n: int, f: spec_fn(int) -> int, k: int)
    requires
        0 <= k < n,
        forall|i: int| 0 <= i < n && i != k ==> #[trigger] f(i) == 0,
    ensures
        sum(n, f) == f(k),
{
    let zero = |i: int| 0int;
    lemma_sum_zero(n, zero);
    lemma_sum_point(n, zero, f, k);
}

/// A sum of terms between `lo` and `hi` lies between `n * lo` and `n * hi`.
pub proof fn lemma_sum_bounds(n: int, f: spec_fn(int) -> int, lo: int, hi: int)
    requires
        0 <= n,
        forall|i: int| 0 <= i < n ==> lo <= #[trigger] f(i) <= hi,
    ensures
        n * lo <= sum(n, f) <= n * hi,
    decreases n,
{
    if n > 0 {
        lemma_sum_bounds(n - 1, f, lo, hi);
        assert((n - 1) * lo + lo == n * lo) by (nonlinear_arith);
        assert((n - 1) * hi + hi == n * hi) by (nonlinear_arith);
    } else {
        assert(0 * lo == 0 && 0 * hi == 0) by (nonlinear_arith);
    }
}

/// A sum with its first term split off.
pub proof fn lemma_sum_shift(n: int, f: spec_fn(int) -> int)
    requires
        0 <= n,
    ensures
        sum(n + 1, f) == f(0) + sum(n, |i: int| f(1 + i)),
    decreases n,
{
    let g = |i: int| f(1 + i);
    if n > 0 {
        lemma_sum_shift(n - 1, f);
        assert(g(n - 1) == f(n));
    } else {
        assert(sum(1, f) == sum(0, f) + f(0));
    }
}

/// A sum whose terms are zero outside `lo .. lo + m`.
pub proof fn lemma_sum_window(n: int, f: spec_fn(int) -> int, lo: int, m: int)
    requires
        0 <= lo,
        0 <= m,
        lo + m <= n,
        forall|i: int| 0 <= i < n && !(lo <= i < lo + m) ==> #[trigger] f(i) == 0,
    ensures
        sum(n, f) == sum(m, |i: int| f(lo + i)),
    decreases n,
{
    let g = |i: int| f(lo + i);
    if lo + m < n {
        lemma_sum_window(n - 1, f, lo, m);
        assert(f(n - 1) == 0);
    } else if m > 0 {
        lemma_sum_window(n - 1, f, lo, m - 1);
        assert(g(m - 1) == f(n - 1));
    } else {
        lemma_sum_zero(n, f);
    }
}

/// Terms that are nowhere negative, two of them at least one, sum to at least two.
pub proof fn lemma_sum_two(n: int, f: spec_fn(int) -> int, x: int, y: int)
    requires
        0 <= x < n,
        0 <= y < n,
        x != y,
        f(x) >= 1,
        f(y) >= 1,
        forall|i: int| 0 <= i < n ==> #[trigger] f(i) >= 0,
    ensures
        sum(n, f) >= 2,
{
    let one = |i: int| if i == x { 1int } else { 0int };
    let two = |i: int| if i == x || i == y { 1int } else { 0int };
    lemma_sum_single(n, one, x);
    lemma_sum_point(n, one, two, y);
    lemma_sum_le(n, two, f);
}

/// The sum of `d(v, i)` over every row `v` and every column `i` of that row;
/// row `v` has `lens[v]` columns.
pub open spec fn table_sum(lens: Seq<int>, d: spec_fn(int, int) -> int) -> int {
    sum(lens.len() as int, |v: int| sum(lens[v], |i: int| d(v, i)))
}

/// Equal entries, equal sums.
pub proof fn lemma_table_eq(
    lens: Seq<int>,
    d: spec_fn(int, int) -> int,
    e: spec_fn(int, int) -> int,
)
    requires
        forall|v: int, i: int|
            0 <= v < lens.len() && 0 <= i < lens[v] ==> #[trigger] d(v, i) == e(v, i),
    ensures
        table_sum(lens, d) == table_sum(lens, e),
{
    let f = |v: int| sum(lens[v], |i: int| d(v, i));
    let g = |v: int| sum(lens[v], |i: int| e(v, i));
    assert forall|v: int| 0 <= v < lens.len() implies #[trigger] f(v) == g(v) by {
        let dv = |i: int| d(v, i);
        let ev = |i: int| e(v, i);
        assert forall|i: int| 0 <= i < lens[v] implies #[trigger] dv(i) == ev(i) by {
            assert(d(v, i) == e(v, i));
        }
        lemma_sum_eq(lens[v], dv, ev);
    }
    lemma_sum_eq(lens.len() as int, f, g);
}

/// Smaller entries, a smaller sum.
pub proof fn lemma_table_le(
    lens: Seq<int>,
    d: spec_fn(int, int) -> int,
    e: spec_fn(int, int) -> int,
)
    requires
        forall|v: int, i: int|
            0 <= v < lens.len() && 0 <= i < lens[v] ==> #[trigger] d(v, i) <= e(v, i),
    ensures
        table_sum(lens, d) <= table_sum(lens, e),
{
    let f = |v: int| sum(lens[v], |i: int| d(v, i));
    let g = |v: int| sum(lens[v], |i: int| e(v, i));
    assert forall|v: int| 0 <= v < lens.len() implies #[trigger] f(v) <= g(v) by {
        let dv = |i: int| d(v, i);
        let ev = |i: int| e(v, i);
        assert forall|i: int| 0 <= i < lens[v] implies #[trigger] dv(i) <= ev(i) by {
            assert(d(v, i) <= e(v, i));
        }
        lemma_sum_le(lens[v], dv, ev);
    }
    lemma_sum_le(lens.len() as int, f, g);
}

/// Zeros sum to zero.
pub proof fn lemma_table_zero(lens: Seq<int>, d: spec_fn(int, int) -> int)
    requires
        forall|v: int, i: int|
            0 <= v < lens.len() && 0 <= i < lens[v] ==> #[trigger] d(v, i) == 0,
    ensures
        table_sum(lens, d) == 0,
{
    let f = |v: int| sum(lens[v], |i: int| d(v, i));
    assert forall|v: int| 0 <= v < lens.len() implies #[trigger] f(v) == 0 by {
        let dv = |i: int| d(v, i);
        assert forall|i: int| 0 <= i < lens[v] implies #[trigger] dv(i) == 0 by {
            assert(d(v, i) == 0);
        }
        lemma_sum_zero(lens[v], dv);
    }
    lemma_sum_zero(lens.len() as int, f);
}

/// Tables can be added entry by entry.
pub proof fn lemma_table_add(
    lens: Seq<int>,
    d: spec_fn(int, int) -> int,
    e: spec_fn(int, int) -> int,
)
    ensures
        table_sum(lens, |v: int, i: int| d(v, i) + e(v, i)) == table_sum(lens, d) + table_sum(
            lens,
            e,
        ),
{
    let f = |v: int| sum(lens[v], |i: int| d(v, i));
    let g = |v: int| sum(lens[v], |i: int| e(v, i));
    let h = |v: int| sum(lens[v], |i: int| d(v, i) + e(v, i));
    let fg = |v: int| f(v) + g(v);
    assert forall|v: int| 0 <= v < lens.len() implies #[trigger] h(v) == fg(v) by {
        let dv = |i: int| d(v, i);
        let ev = |i: int| e(v, i);
        lemma_sum_add(lens[v], dv, ev);
        lemma_sum_eq(lens[v], |i: int| dv(i) + ev(i), |i: int| d(v, i) + e(v, i));
    }
    lemma_sum_eq(lens.len() as int, h, fg);
    lemma_sum_add(lens.len() as int, f, g);
    let whole = |v: int, i: int| d(v, i) + e(v, i);
    let rows = |v: int| sum(lens[v], |i: int| whole(v, i));
    assert forall|v: int| 0 <= v < lens.len() implies #[trigger] rows(v) == h(v) by {
        lemma_sum_eq(lens[v], |i: int| whole(v, i), |i: int| d(v, i) + e(v, i));
    }
    lemma_sum_eq(lens.len() as int, rows, h);
}

/// Changing one entry changes the sum of the table by the same amount.
pub proof fn lemma_table_point(
    lens: Seq<int>,
    d: spec_fn(int, int) -> int,
    e: spec_fn(int, int) -> int,
    v0: int,
    i0: int,
)
    requires
        0 <= v0 < lens.len(),
        0 <= i0 < lens[v0],
        forall|v: int, i: int|
            0 <= v < lens.len() && 0 <= i < lens[v] && !(v == v0 && i == i0) ==> #[trigger] d(
                v,
                i,
            ) == e(v, i),
    ensures
        table_sum(lens, e) == table_sum(lens, d) - d(v0, i0) + e(v0, i0),
{
    let f = |v: int| sum(lens[v], |i: int| d(v, i));
    let g = |v: int| sum(lens[v], |i: int| e(v, i));
    assert forall|v: int| 0 <= v < lens.len() && v != v0 implies #[trigger] f(v) == g(v) by {
        let dv = |i: int| d(v, i);
        let ev = |i: int| e(v, i);
        assert forall|i: int| 0 <= i < lens[v] implies #[trigger] dv(i) == ev(i) by {
            assert(d(v, i) == e(v, i));
        }
        lemma_sum_eq(lens[v], dv, ev);
    }
    let d0 = |i: int| d(v0, i);
    let e0 = |i: int| e(v0, i);
    assert forall|i: int| 0 <= i < lens[v0] && i != i0 implies #[trigger] d0(i) == e0(i) by {
        assert(d(v0, i) == e(v0, i));
    }
    lemma_sum_point(lens[v0], d0, e0, i0);
    lemma_sum_point(lens.len() as int, f, g, v0);
}

} // verus!
