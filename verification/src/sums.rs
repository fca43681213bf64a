//! Finite sums of integers.

use vstd::arithmetic::mul::{
    lemma_mul_is_associative, lemma_mul_is_commutative, lemma_mul_is_distributive_add,
    lemma_mul_is_distributive_add_other_way,
};
use vstd::prelude::*;

verus! {

/// `f(lo) + f(lo + 1) + .. + f(lo + n - 1)`.
pub open spec fn sum(f: spec_fn(int) -> int, lo: int, n: nat) -> int
    decreases n,
{
    if n == 0 {
        0
    } else {
        sum(f, lo, (n - 1) as nat) + f(lo + n - 1)
    }
}

/// The absolute value of `x`.
pub open spec fn abs(x: int) -> int {
    if x < 0 {
        -x
    } else {
        x
    }
}

/// The magnitudes of the terms `f`.
pub open spec fn magnitude(f: spec_fn(int) -> int) -> spec_fn(int) -> int {
    |t: int| abs(f(t))
}

/// Terms that agree have the same sum.
pub proof fn lemma_sum_agrees(
    f: spec_fn(int) -> int,
    f_lo: int,
    g: spec_fn(int) -> int,
    g_lo: int,
    n: nat,
)
    requires
        forall|t: int| 0 <= t < n ==> #[trigger] f(f_lo + t) == g(g_lo + t),
    ensures
        sum(f, f_lo, n) == sum(g, g_lo, n),
        sum(magnitude(f), f_lo, n) == sum(magnitude(g), g_lo, n),
    decreases n,
{
    if n > 0 {
        lemma_sum_agrees(f, f_lo, g, g_lo, (n - 1) as nat);
        assert(f(f_lo + (n - 1)) == g(g_lo + (n - 1)));
    }
}

/// A sum splits anywhere.
pub proof fn lemma_sum_splits(f: spec_fn(int) -> int, lo: int, a: nat, b: nat)
    ensures
        sum(f, lo, a + b) == sum(f, lo, a) + sum(f, lo + a, b),
    decreases b,
{
    if b > 0 {
        lemma_sum_splits(f, lo, a, (b - 1) as nat);
        assert((a + b - 1) as nat == a + (b - 1) as nat);
    }
}

/// Zeros have the sum zero.
pub proof fn lemma_sum_zero(f: spec_fn(int) -> int, lo: int, n: nat)
    requires
        forall|t: int| lo <= t < lo + n ==> #[trigger] f(t) == 0,
    ensures
        sum(f, lo, n) == 0,
        sum(magnitude(f), lo, n) == 0,
    decreases n,
{
    if n > 0 {
        lemma_sum_zero(f, lo, (n - 1) as nat);
    }
}

/// A sum is no larger than its magnitudes.
pub proof fn lemma_sum_magnitude(f: spec_fn(int) -> int, lo: int, n: nat)
    ensures
        abs(sum(f, lo, n)) <= sum(magnitude(f), lo, n),
    decreases n,
{
    if n > 0 {
        lemma_sum_magnitude(f, lo, (n - 1) as nat);
    }
}

/// The prefix of a sum of magnitudes is no larger.
pub proof fn lemma_prefix_within(g: spec_fn(int) -> int, lo: int, n: nat, all: nat)
    requires
        n <= all,
    ensures
        sum(magnitude(g), lo, n) <= sum(magnitude(g), lo, all),
{
    lemma_sum_splits(magnitude(g), lo, n, (all - n) as nat);
    lemma_sum_magnitude(g, lo + n, (all - n) as nat);
    assert(n + (all - n) as nat == all);
}

/// A combination times a number is the combination of the products.
pub proof fn lemma_combination_times(x: int, s: int, y: int, t: int, k: int)
    ensures
        (x * s + y * t) * k == x * (s * k) + y * (t * k),
        k * (x * s + y * t) == x * (k * s) + y * (k * t),
{
    lemma_mul_is_distributive_add_other_way(k, x * s, y * t);
    lemma_mul_is_associative(x, s, k);
    lemma_mul_is_associative(y, t, k);
    lemma_mul_is_commutative(k, x * s + y * t);
    lemma_mul_is_commutative(k, s);
    lemma_mul_is_commutative(k, t);
}

/// A sum of combinations is the combination of the sums.
pub proof fn lemma_sum_combines(
    f: spec_fn(int) -> int,
    x: int,
    g: spec_fn(int) -> int,
    y: int,
    h: spec_fn(int) -> int,
    lo: int,
    n: nat,
)
    requires
        forall|t: int| lo <= t < lo + n ==> #[trigger] h(t) == x * f(t) + y * g(t),
    ensures
        sum(h, lo, n) == x * sum(f, lo, n) + y * sum(g, lo, n),
    decreases n,
{
    if n == 0 {
        assert(x * 0 + y * 0 == 0) by (nonlinear_arith);
    } else {
        lemma_sum_combines(f, x, g, y, h, lo, (n - 1) as nat);
        let (a, b) = (sum(f, lo, (n - 1) as nat), sum(g, lo, (n - 1) as nat));
        let (c, d) = (f(lo + n - 1), g(lo + n - 1));
        assert(h(lo + n - 1) == x * c + y * d);
        lemma_mul_is_distributive_add(x, a, c);
        lemma_mul_is_distributive_add(y, b, d);
    }
}

/// A sum of multiples is the multiple of the sum.
pub proof fn lemma_sum_scales(
    f: spec_fn(int) -> int,
    x: int,
    h: spec_fn(int) -> int,
    lo: int,
    n: nat,
)
    requires
        forall|t: int| lo <= t < lo + n ==> #[trigger] h(t) == x * f(t),
    ensures
        sum(h, lo, n) == x * sum(f, lo, n),
{
    assert forall|t: int| lo <= t < lo + n implies #[trigger] h(t) == x * f(t) + 0 * f(t) by {
        assert(0 * f(t) == 0) by (nonlinear_arith);
    }
    lemma_sum_combines(f, x, f, 0, h, lo, n);
    assert(0 * sum(f, lo, n) == 0) by (nonlinear_arith);
}

/// The sums of the first `n` elements of each row.
pub open spec fn row_sums(f: spec_fn(int, int) -> int, n: nat) -> spec_fn(int) -> int {
    |i: int| sum(|j: int| f(i, j), 0, n)
}

/// The transpose of a matrix.
pub open spec fn flip(f: spec_fn(int, int) -> int) -> spec_fn(int, int) -> int {
    |i: int, j: int| f(j, i)
}

/// The sum over the rows is the sum over the columns.
pub proof fn lemma_sum_swaps(f: spec_fn(int, int) -> int, rows: nat, cols: nat)
    ensures
        sum(row_sums(f, cols), 0, rows) == sum(row_sums(flip(f), rows), 0, cols),
    decreases rows,
{
    if rows == 0 {
        lemma_sum_zero(row_sums(flip(f), rows), 0, cols);
    } else {
        let last = rows - 1;
        let rest = last as nat;
        lemma_sum_swaps(f, rest, cols);
        let row = |j: int| f(last, j);
        let above = row_sums(flip(f), rest);
        let all = row_sums(flip(f), rows);
        assert forall|j: int| 0 <= j < 0 + cols implies #[trigger] all(j) == 1 * above(j) + 1 * row(
            j,
        ) by {
            let column = |i: int| flip(f)(j, i);
            assert(all(j) == sum(column, 0, rows));
            assert(above(j) == sum(column, 0, rest));
            assert(column(0 + rows - 1) == row(j));
        }
        lemma_sum_combines(above, 1, row, 1, all, 0, cols);
        assert(row_sums(f, cols)(0 + rows - 1) == sum(row, 0, cols));
    }
}

/// `f` and `g` have the same sum over `0..n` up to what they differ at `at`.
proof fn lemma_sum_differs_once(f: spec_fn(int) -> int, g: spec_fn(int) -> int, at: int, n: nat)
    requires
        0 <= at < n,
        forall|t: int| 0 <= t < n && t != at ==> #[trigger] f(t) == g(t),
    ensures
        sum(f, 0, n) - f(at) == sum(g, 0, n) - g(at),
    decreases n,
{
    let last = (n - 1) as nat;
    if at == last {
        assert forall|t: int| 0 <= t < last implies #[trigger] f(0 + t) == g(0 + t) by {}
        lemma_sum_agrees(f, 0, g, 0, last);
    } else {
        lemma_sum_differs_once(f, g, at, last);
        assert(f(last as int) == g(last as int));
    }
}

/// `to` permutes `0..n`, and `from` undoes it.
pub open spec fn permutes(to: spec_fn(int) -> int, from: spec_fn(int) -> int, n: int) -> bool {
    &&& forall|t: int| 0 <= t < n ==> 0 <= #[trigger] to(t) < n && from(to(t)) == t
    &&& forall|t: int| 0 <= t < n ==> 0 <= #[trigger] from(t) < n && to(from(t)) == t
}

/// A sum does not depend on the order of its terms.
pub proof fn lemma_sum_permutes(
    f: spec_fn(int) -> int,
    g: spec_fn(int) -> int,
    to: spec_fn(int) -> int,
    from: spec_fn(int) -> int,
    n: nat,
)
    requires
        permutes(to, from, n as int),
        forall|t: int| 0 <= t < n ==> #[trigger] g(t) == f(to(t)),
    ensures
        sum(f, 0, n) == sum(g, 0, n),
    decreases n,
{
    if n > 0 {
        let last = n - 1;
        let (end, at) = (to(last), from(last));
        let to2 = |t: int| if t == at { end } else { to(t) };
        let from2 = |t: int| if t == end { at } else { from(t) };
        let g2 = |t: int| f(to2(t));
        assert(to(at) == last && from(end) == last);
        assert forall|t: int| 0 <= t < last implies 0 <= #[trigger] to2(t) < last && from2(to2(t))
            == t by {
            assert(from(to(t)) == t);
        }
        assert forall|t: int| 0 <= t < last implies 0 <= #[trigger] from2(t) < last && to2(from2(t))
            == t by {
            assert(to(from(t)) == t);
        }
        lemma_sum_permutes(f, g2, to2, from2, last as nat);
        assert(g(last) == f(end));
        if at == last {
            assert forall|t: int| 0 <= t < last implies #[trigger] g(0 + t) == g2(0 + t) by {}
            lemma_sum_agrees(g, 0, g2, 0, last as nat);
        } else {
            assert forall|t: int| 0 <= t < last && t != at implies #[trigger] g(t) == g2(t) by {}
            lemma_sum_differs_once(g, g2, at, last as nat);
            assert(g(at) == f(last) && g2(at) == f(end));
        }
    }
}

} // verus!
