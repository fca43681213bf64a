//! What the gradients are where the tile products do not round.
//!
//! The kernels accumulate 16×16 tile products. Where those are exact, what
//! they accumulate is the matrix product over the whole sequence:
//! `dQ = dS · K`, `dK = dSᵀ · Q` and `dV = Pᵀ · dO`, with `S = Q · Kᵀ` and
//! `dP = dO · Vᵀ`.
//!
//! Tensor cores multiply bf16 integers and add them to fp32 integers without
//! rounding as long as the magnitudes stay below 2²⁴, so the laws here ask for
//! exactness up to some limit and hold for the sums that stay within it. Bits
//! that stand for no integer (infinities, NaN, fractions finer than the unit)
//! are left out. The unit is free: with bf16 numbers read in steps of 2⁻ᵏ and
//! fp32 numbers in steps of 2⁻²ᵏ, the same laws speak of fixed-point numbers.

use vstd::prelude::*;
use crate::attention::{lemma_tile_elements, tile, tile_t, Matrix, Problem, Tiles};
use crate::geometry::{kv_end, q_start, sees, BLOCK_TILES, HD_TILES, HEAD_DIM, TILE, TILE_ELEMS};
use crate::math::{Model, ZERO};
use crate::prepass::row_sum;
use crate::sums::{
    abs, lemma_prefix_within, lemma_sum_agrees, lemma_sum_magnitude, lemma_sum_splits,
    lemma_sum_zero, magnitude, sum,
};

verus! {

/// The integers that bf16 and fp32 bits stand for, if they stand for any, each
/// in its unit, and the magnitude up to which tile products are exact.
pub ghost struct Reading {
    pub half_ok: spec_fn(u16) -> bool,
    pub half: spec_fn(u16) -> int,
    pub full_ok: spec_fn(u32) -> bool,
    pub full: spec_fn(u32) -> int,
    pub limit: int,
}

/// The products that element `i` of a tile product sums.
pub open spec fn inner(e: Reading, a: Seq<u16>, b: Seq<u16>, i: int) -> spec_fn(int) -> int {
    |t: int| (e.half)(a[(i / 16) * 16 + t]) * (e.half)(b[t * 16 + i % 16])
}

/// The factors of product `t` of element `i` of a tile product stand for
/// integers.
pub open spec fn factors_ok(e: Reading, a: Seq<u16>, b: Seq<u16>, i: int, t: int) -> bool {
    (e.half_ok)(a[(i / 16) * 16 + t]) && (e.half_ok)(b[t * 16 + i % 16])
}

/// All that element `i` of a tile product sums stands for integers.
pub open spec fn readable(e: Reading, a: Seq<u16>, b: Seq<u16>, c: Seq<u32>, i: int) -> bool {
    &&& (e.full_ok)(c[i])
    &&& forall|t: int| 0 <= t < 16 ==> #[trigger] factors_ok(e, a, b, i, t)
}

/// Element `i` of a tile product is within the limit.
pub open spec fn within(e: Reading, a: Seq<u16>, b: Seq<u16>, c: Seq<u32>, i: int) -> bool {
    abs((e.full)(c[i])) + sum(magnitude(inner(e, a, b, i)), 0, TILE as nat) <= e.limit
}

/// Tile products of integers are exact under the reading `e`, up to its limit.
pub open spec fn exact<Q, D>(m: Model<Q, D>, e: Reading) -> bool {
    &&& (e.full_ok)(ZERO)
    &&& (e.full)(ZERO) == 0
    &&& forall|a: Seq<u16>, b: Seq<u16>, c: Seq<u32>|
        a.len() == TILE_ELEMS && b.len() == TILE_ELEMS && c.len() == TILE_ELEMS
            ==> #[trigger] (m.mma)(a, b, c).len() == TILE_ELEMS
    &&& forall|a: Seq<u16>, b: Seq<u16>, c: Seq<u32>, i: int|
        a.len() == TILE_ELEMS && b.len() == TILE_ELEMS && c.len() == TILE_ELEMS && 0 <= i
            < TILE_ELEMS && readable(e, a, b, c, i) && within(e, a, b, c, i) ==> {
            &&& (e.full_ok)(#[trigger] (m.mma)(a, b, c)[i])
            &&& (e.full)((m.mma)(a, b, c)[i]) == (e.full)(c[i]) + sum(
                inner(e, a, b, i),
                0,
                TILE as nat,
            )
        }
}

/// The softmax weights and score gradients of masked pairs read as zero, if
/// they stand for integers.
pub open spec fn masks<Q, D>(m: Model<Q, D>, e: Reading) -> bool {
    &&& (e.half_ok)((m.narrow)(ZERO)) ==> (e.half)((m.narrow)(ZERO)) == 0
    &&& forall|dp: u32, d: u32, scale: u32|
        (e.half_ok)((m.narrow)(#[trigger] m.grad(ZERO, dp, d, scale))) ==> (e.half)(
            (m.narrow)(m.grad(ZERO, dp, d, scale)),
        ) == 0
}

/// A tile product that continues a sum.
proof fn lemma_step_exact<Q, D>(
    m: Model<Q, D>,
    e: Reading,
    a: Seq<u16>,
    b: Seq<u16>,
    c: Seq<u32>,
    i: int,
    g: spec_fn(int) -> int,
    lo: int,
    done: nat,
)
    requires
        exact(m, e),
        0 <= i < TILE_ELEMS,
        a.len() == TILE_ELEMS,
        b.len() == TILE_ELEMS,
        c.len() == TILE_ELEMS,
        (e.full_ok)(c[i]),
        (e.full)(c[i]) == sum(g, lo, done),
        forall|t: int|
            0 <= t < 16 ==> #[trigger] factors_ok(e, a, b, i, t) && inner(e, a, b, i)(t) == g(
                lo + done + t,
            ),
        sum(magnitude(g), lo, done + 16) <= e.limit,
    ensures
        (m.mma)(a, b, c).len() == TILE_ELEMS,
        (e.full_ok)((m.mma)(a, b, c)[i]),
        (e.full)((m.mma)(a, b, c)[i]) == sum(g, lo, done + 16),
{
    assert forall|t: int| 0 <= t < 16 implies #[trigger] inner(e, a, b, i)(0 + t) == g(
        lo + done + t,
    ) by {
        assert(factors_ok(e, a, b, i, t));
    }
    lemma_sum_agrees(inner(e, a, b, i), 0, g, lo + done, 16);
    lemma_sum_splits(g, lo, done, 16);
    lemma_sum_splits(magnitude(g), lo, done, 16);
    lemma_sum_magnitude(g, lo, done);
    assert(readable(e, a, b, c, i) && within(e, a, b, c, i));
}

/// Adding the product of an output and an output gradient is exact up to the
/// limit, where `term` is the integer that their product stands for, if `ok`
/// says that it stands for one.
pub open spec fn rows_exact<Q, D>(
    m: Model<Q, D>,
    e: Reading,
    ok: spec_fn(Q, D) -> bool,
    term: spec_fn(Q, D) -> int,
) -> bool {
    &&& (e.full_ok)(ZERO)
    &&& (e.full)(ZERO) == 0
    &&& forall|s: u32, o: Q, g: D|
        (e.full_ok)(s) && ok(o, g) && abs((e.full)(s)) + abs(term(o, g)) <= e.limit ==> {
            &&& (e.full_ok)(#[trigger] m.row_step(s, o, g))
            &&& (e.full)(m.row_step(s, o, g)) == (e.full)(s) + term(o, g)
        }
}

/// The products of a row of outputs and output gradients, column by column.
pub open spec fn row_terms<Q, D>(
    term: spec_fn(Q, D) -> int,
    o: Seq<Q>,
    do_: Seq<D>,
    base: int,
) -> spec_fn(int) -> int {
    |i: int| term(o[base + i], do_[base + i])
}

/// The row sums are the sums of the products of outputs and output gradients:
/// `D = rowsum(dO ⊙ O)`.
pub proof fn row_sum_is_a_sum<Q, D>(
    m: Model<Q, D>,
    e: Reading,
    ok: spec_fn(Q, D) -> bool,
    term: spec_fn(Q, D) -> int,
    o: Seq<Q>,
    do_: Seq<D>,
    base: int,
    n: nat,
)
    requires
        rows_exact(m, e, ok, term),
        forall|i: int| 0 <= i < n ==> ok(#[trigger] o[base + i], do_[base + i]),
        sum(magnitude(row_terms(term, o, do_, base)), 0, n) <= e.limit,
    ensures
        (e.full_ok)(row_sum(m, o, do_, base, n)),
        (e.full)(row_sum(m, o, do_, base, n)) == sum(row_terms(term, o, do_, base), 0, n),
    decreases n,
{
    if n > 0 {
        let f = row_terms(term, o, do_, base);
        lemma_prefix_within(f, 0, (n - 1) as nat, n);
        row_sum_is_a_sum(m, e, ok, term, o, do_, base, (n - 1) as nat);
        lemma_sum_magnitude(f, 0, (n - 1) as nat);
        assert(f(0 + n - 1) == term(o[base + (n - 1)], do_[base + (n - 1)]));
    }
}

/// One row of `x` times one row of `y`, column by column.
pub open spec fn row_product(e: Reading, x: Matrix, xr: int, y: Matrix, yr: int) -> spec_fn(int) -> int {
    |c: int| (e.half)(x(xr, c)) * (e.half)(y(yr, c))
}

/// Column `c` of a row of `x` and of a row of `y` stands for integers.
pub open spec fn column_ok(e: Reading, x: Matrix, xr: int, y: Matrix, yr: int, c: int) -> bool {
    (e.half_ok)(x(xr, c)) && (e.half_ok)(y(yr, c))
}

/// A row of `x` and a row of `y` stand for integers, and their product stays
/// within the limit.
pub open spec fn rows_read(e: Reading, x: Matrix, xr: int, y: Matrix, yr: int) -> bool {
    &&& forall|c: int| 0 <= c < HEAD_DIM ==> #[trigger] column_ok(e, x, xr, y, yr, c)
    &&& sum(magnitude(row_product(e, x, xr, y, yr)), 0, HEAD_DIM as nat) <= e.limit
}

/// A tile of `x · yᵀ` holds the products of the rows.
pub proof fn lemma_cross_exact<Q, D>(
    m: Model<Q, D>,
    e: Reading,
    x: Matrix,
    xr: int,
    y: Matrix,
    yr: int,
    h: nat,
    i: int,
)
    requires
        exact(m, e),
        0 <= i < TILE_ELEMS,
        forall|c: int|
            0 <= c < h * TILE ==> #[trigger] column_ok(e, x, xr + i / 16, y, yr + i % 16, c),
        sum(magnitude(row_product(e, x, xr + i / 16, y, yr + i % 16)), 0, h * TILE as nat)
            <= e.limit,
    ensures
        m.cross_partial(x, xr, y, yr, h).len() == TILE_ELEMS,
        (e.full_ok)(m.cross_partial(x, xr, y, yr, h)[i]),
        (e.full)(m.cross_partial(x, xr, y, yr, h)[i]) == sum(
            row_product(e, x, xr + i / 16, y, yr + i % 16),
            0,
            h * TILE as nat,
        ),
    decreases h,
{
    if h > 0 {
        let c0 = (h - 1) * TILE;
        let g = row_product(e, x, xr + i / 16, y, yr + i % 16);
        lemma_prefix_within(g, 0, c0 as nat, h * TILE as nat);
        lemma_cross_exact(m, e, x, xr, y, yr, (h - 1) as nat, i);
        let a = tile(x, xr, c0);
        let b = tile_t(y, yr, c0);
        assert forall|t: int| 0 <= t < 16 implies #[trigger] factors_ok(e, a, b, i, t) && inner(
            e,
            a,
            b,
            i,
        )(t) == g(c0 as nat + t) by {
            let ia = (i / 16) * 16 + t;
            let ib = t * 16 + i % 16;
            assert(ia / 16 == i / 16 && ia % 16 == t);
            assert(ib / 16 == t && ib % 16 == i % 16);
            assert(a[ia] == x(xr + i / 16, c0 + t));
            assert(b[ib] == y(yr + i % 16, c0 + t));
            assert(column_ok(e, x, xr + i / 16, y, yr + i % 16, c0 + t));
        }
        lemma_step_exact(
            m,
            e,
            a,
            b,
            m.cross_partial(x, xr, y, yr, (h - 1) as nat),
            i,
            g,
            0,
            c0 as nat,
        );
        assert(c0 as nat + 16nat == h * TILE as nat);
    }
}

/// Product `t` of tile `r` of an accumulation is term `r * 16 + t` of `g`, and
/// its factors stand for integers.
spec fn linked(
    e: Reading,
    a: Tiles,
    b: Matrix,
    h: int,
    i: int,
    g: spec_fn(int) -> int,
    r: int,
    t: int,
) -> bool {
    let left = a(r * TILE)[(i / 16) * 16 + t];
    let right = b(r * TILE + t, h * TILE + i % 16);
    &&& (e.half_ok)(left)
    &&& (e.half_ok)(right)
    &&& g(r * TILE + t) == (e.half)(left) * (e.half)(right)
}

/// An accumulation of tile products is the sum of their terms.
proof fn lemma_accumulate_exact<Q, D>(
    m: Model<Q, D>,
    e: Reading,
    a: Tiles,
    b: Matrix,
    h: int,
    start: int,
    n: nat,
    i: int,
    g: spec_fn(int) -> int,
)
    requires
        exact(m, e),
        0 <= i < TILE_ELEMS,
        forall|r: int| start <= r < start + n ==> (#[trigger] a(r * TILE)).len() == TILE_ELEMS,
        forall|r: int, t: int|
            start <= r < start + n && 0 <= t < 16 ==> #[trigger] linked(e, a, b, h, i, g, r, t),
        sum(magnitude(g), start * TILE, n * TILE as nat) <= e.limit,
    ensures
        m.accumulate(a, b, h, start, n).len() == TILE_ELEMS,
        (e.full_ok)(m.accumulate(a, b, h, start, n)[i]),
        (e.full)(m.accumulate(a, b, h, start, n)[i]) == sum(g, start * TILE, n * TILE as nat),
    decreases n,
{
    if n > 0 {
        let done = ((n - 1) * TILE) as nat;
        let r = start + n - 1;
        lemma_prefix_within(g, start * TILE, done, n * TILE as nat);
        lemma_accumulate_exact(m, e, a, b, h, start, (n - 1) as nat, i, g);
        let left = a(r * TILE);
        let right = tile(b, r * TILE, h * TILE);
        assert forall|t: int| 0 <= t < 16 implies #[trigger] factors_ok(e, left, right, i, t) && inner(
            e,
            left,
            right,
            i,
        )(t) == g(start * TILE + done + t) by {
            let j = t * 16 + i % 16;
            assert(linked(e, a, b, h, i, g, r, t));
            assert(j / 16 == t && j % 16 == i % 16);
            assert(right[j] == b(r * TILE + t, h * TILE + i % 16));
            assert(start * TILE + done + t == r * TILE + t);
        }
        lemma_step_exact(
            m,
            e,
            left,
            right,
            m.accumulate(a, b, h, start, (n - 1) as nat),
            i,
            g,
            start * TILE,
            done,
        );
        assert(done + 16nat == n * TILE as nat);
    }
}

/// The terms of the query gradient of query `q` at column `col`, by key.
pub open spec fn dq_term<Q, D>(
    m: Model<Q, D>,
    e: Reading,
    p: Problem<Q, D>,
    bh: int,
    q: int,
    col: int,
) -> spec_fn(int) -> int {
    |key: int| (e.half)(p.ds_at(m, bh, q, key)) * (e.half)(p.k_half(m, bh)(key, col))
}

/// The factors of the term for key `key` in the query gradient of
/// query `q` at column `col` stand for integers.
pub open spec fn dq_ok<Q, D>(
    m: Model<Q, D>,
    e: Reading,
    p: Problem<Q, D>,
    bh: int,
    q: int,
    col: int,
    key: int,
) -> bool {
    (e.half_ok)(p.ds_at(m, bh, q, key)) && (e.half_ok)(p.k_half(m, bh)(key, col))
}

/// The terms of the query gradient of query `q` at column `col` stand for
/// integers, and their sum stays within the limit.
pub open spec fn dq_reads<Q, D>(
    m: Model<Q, D>,
    e: Reading,
    p: Problem<Q, D>,
    bh: int,
    q: int,
    col: int,
) -> bool {
    &&& forall|key: int| 0 <= key < p.seq ==> #[trigger] dq_ok(m, e, p, bh, q, col, key)
    &&& sum(magnitude(dq_term(m, e, p, bh, q, col)), 0, p.seq as nat) <= e.limit
}

/// The terms of the key gradient of key `key` at column `col`, by query.
pub open spec fn dk_term<Q, D>(
    m: Model<Q, D>,
    e: Reading,
    p: Problem<Q, D>,
    bh: int,
    key: int,
    col: int,
) -> spec_fn(int) -> int {
    |q: int| (e.half)(p.dst_at(m, bh, q, key)) * (e.half)(p.q_half(m, bh)(q, col))
}

/// The factors of the term for query `q` in the key gradient of
/// key `key` at column `col` stand for integers.
pub open spec fn dk_ok<Q, D>(
    m: Model<Q, D>,
    e: Reading,
    p: Problem<Q, D>,
    bh: int,
    key: int,
    col: int,
    q: int,
) -> bool {
    (e.half_ok)(p.dst_at(m, bh, q, key)) && (e.half_ok)(p.q_half(m, bh)(q, col))
}

/// The terms of the key gradient of key `key` at column `col` stand for
/// integers, and their sum stays within the limit.
pub open spec fn dk_reads<Q, D>(
    m: Model<Q, D>,
    e: Reading,
    p: Problem<Q, D>,
    bh: int,
    key: int,
    col: int,
) -> bool {
    &&& forall|q: int| 0 <= q < p.seq ==> #[trigger] dk_ok(m, e, p, bh, key, col, q)
    &&& sum(magnitude(dk_term(m, e, p, bh, key, col)), 0, p.seq as nat) <= e.limit
}

/// The terms of the value gradient of key `key` at column `col`, by query.
pub open spec fn dv_term<Q, D>(
    m: Model<Q, D>,
    e: Reading,
    p: Problem<Q, D>,
    bh: int,
    key: int,
    col: int,
) -> spec_fn(int) -> int {
    |q: int| (e.half)(p.pt_at(m, bh, q, key)) * (e.half)(p.do_half(m, bh)(q, col))
}

/// The factors of the term for query `q` in the value gradient of
/// key `key` at column `col` stand for integers.
pub open spec fn dv_ok<Q, D>(
    m: Model<Q, D>,
    e: Reading,
    p: Problem<Q, D>,
    bh: int,
    key: int,
    col: int,
    q: int,
) -> bool {
    (e.half_ok)(p.pt_at(m, bh, q, key)) && (e.half_ok)(p.do_half(m, bh)(q, col))
}

/// The terms of the value gradient of key `key` at column `col` stand for
/// integers, and their sum stays within the limit.
pub open spec fn dv_reads<Q, D>(
    m: Model<Q, D>,
    e: Reading,
    p: Problem<Q, D>,
    bh: int,
    key: int,
    col: int,
) -> bool {
    &&& forall|q: int| 0 <= q < p.seq ==> #[trigger] dv_ok(m, e, p, bh, key, col, q)
    &&& sum(magnitude(dv_term(m, e, p, bh, key, col)), 0, p.seq as nat) <= e.limit
}

/// The query gradient is the product of score gradients and keys over all keys
/// of the sequence, in which masked pairs do not count.
pub proof fn dq_is_product<Q, D>(
    m: Model<Q, D>,
    e: Reading,
    p: Problem<Q, D>,
    bh: int,
    q: int,
    col: int,
)
    requires
        exact(m, e),
        masks(m, e),
        p.seq % 64 == 0,
        0 <= q < p.seq,
        0 <= col < HEAD_DIM,
        dq_reads(m, e, p, bh, q, col),
    ensures
        (e.full_ok)(p.dq_value(m, bh, q, col)),
        (e.full)(p.dq_value(m, bh, q, col)) == sum(dq_term(m, e, p, bh, q, col), 0, p.seq as nat),
        forall|key: int|
            0 <= key < p.seq && !sees(p.causal, q, key) ==> #[trigger] dq_term(
                m,
                e,
                p,
                bh,
                q,
                col,
            )(key) == 0,
{
    let g = dq_term(m, e, p, bh, q, col);
    let end = kv_end(p.causal, q / 64, p.seq);
    let n = (end * BLOCK_TILES) as nat;
    let i = (q % 16) * 16 + col % 16;
    let qr = (q / 16) * 16;
    let h = col / 16;
    assert(i / 16 == q % 16 && i % 16 == col % 16 && 0 <= i < 256);
    assert(qr + i / 16 == q && h * 16 + i % 16 == col && qr % 16 == 0);
    assert forall|key: int| 0 <= key < p.seq && !sees(p.causal, q, key) implies #[trigger] g(
        key,
    ) == 0 by {
        assert(dq_ok(m, e, p, bh, q, col, key));
        assert((e.half)(p.ds_at(m, bh, q, key)) == 0);
    }
    let blocks = p.seq / 64;
    assert(p.seq == blocks * 64 && 0 <= q / 64 < blocks);
    assert(0 <= end <= blocks && n == end * 4 && n * 16 <= p.seq);
    let rest = (p.seq - n * 16) as nat;
    assert forall|key: int| n * 16 <= key < n * 16 + rest implies #[trigger] g(key) == 0 by {
        assert(p.causal && end == q / 64 + 1);
        assert(q < key);
    }
    lemma_sum_zero(g, (n * 16) as int, rest);
    lemma_sum_splits(g, 0, n * 16, rest);
    lemma_sum_splits(magnitude(g), 0, n * 16, rest);
    assert(n * 16 + rest == p.seq as nat);
    let a = p.ds_tiles(m, bh, qr);
    let b = p.k_half(m, bh);
    assert forall|r: int, t: int| 0 <= r < 0 + n && 0 <= t < 16 implies #[trigger] linked(
        e,
        a,
        b,
        h,
        i,
        g,
        r,
        t,
    ) by {
        let key = r * 16 + t;
        assert(dq_ok(m, e, p, bh, q, col, key));
        lemma_tile_elements(m, p, bh, qr, r * 16, q, key);
    }
    lemma_accumulate_exact(m, e, a, b, h, 0, n, i, g);
}

/// Where the sweep of the queries of key `key` starts and ends.
proof fn lemma_key_sweep<Q, D>(p: Problem<Q, D>, key: int)
    requires
        p.seq % 64 == 0,
        0 <= key < p.seq,
    ensures
        0 <= p.first_q_tile(key) * 16,
        p.first_q_tile(key) * 16 + p.q_tiles(key) * 16 == p.seq,
        forall|q: int| 0 <= q < p.first_q_tile(key) * 16 ==> !#[trigger] sees(p.causal, q, key),
{
    let blocks = p.seq / 64;
    assert(p.seq == blocks * 64 && 0 <= key / 64 < blocks);
    let first = q_start(p.causal, key / 64);
    assert(p.first_q_tile(key) == first * 4 && p.q_tiles(key) == blocks * 4 - first * 4);
}

/// A sum over the queries that key `key` is swept by is one over all queries
/// if the masked pairs do not count.
proof fn lemma_swept_queries<Q, D>(p: Problem<Q, D>, key: int, g: spec_fn(int) -> int)
    requires
        p.seq % 64 == 0,
        0 <= key < p.seq,
        forall|q: int| 0 <= q < p.seq && !sees(p.causal, q, key) ==> #[trigger] g(q) == 0,
    ensures
        sum(g, p.first_q_tile(key) * 16, p.q_tiles(key) * 16) == sum(g, 0, p.seq as nat),
        sum(magnitude(g), p.first_q_tile(key) * 16, p.q_tiles(key) * 16) == sum(
            magnitude(g),
            0,
            p.seq as nat,
        ),
{
    lemma_key_sweep(p, key);
    let skipped = (p.first_q_tile(key) * 16) as nat;
    let n = p.q_tiles(key);
    assert forall|q: int| 0 <= q < 0 + skipped implies #[trigger] g(q) == 0 by {
        assert(!sees(p.causal, q, key));
    }
    lemma_sum_zero(g, 0, skipped);
    lemma_sum_splits(g, 0, skipped, n * 16);
    lemma_sum_splits(magnitude(g), 0, skipped, n * 16);
    assert(skipped + n * 16 == p.seq as nat);
}

/// The key gradient is the product of score gradients and queries over all
/// queries of the sequence, in which masked pairs do not count.
pub proof fn dk_is_product<Q, D>(
    m: Model<Q, D>,
    e: Reading,
    p: Problem<Q, D>,
    bh: int,
    key: int,
    col: int,
)
    requires
        exact(m, e),
        masks(m, e),
        p.seq % 64 == 0,
        0 <= key < p.seq,
        0 <= col < HEAD_DIM,
        dk_reads(m, e, p, bh, key, col),
    ensures
        (e.full_ok)(p.dk_value(m, bh, key, col)),
        (e.full)(p.dk_value(m, bh, key, col)) == sum(
            dk_term(m, e, p, bh, key, col),
            0,
            p.seq as nat,
        ),
        forall|q: int|
            0 <= q < p.seq && !sees(p.causal, q, key) ==> #[trigger] dk_term(
                m,
                e,
                p,
                bh,
                key,
                col,
            )(q) == 0,
{
    let g = dk_term(m, e, p, bh, key, col);
    let start = p.first_q_tile(key);
    let n = p.q_tiles(key);
    let i = (key % 16) * 16 + col % 16;
    let kr = (key / 16) * 16;
    let h = col / 16;
    assert(i / 16 == key % 16 && i % 16 == col % 16 && 0 <= i < 256);
    assert(kr + i / 16 == key && h * 16 + i % 16 == col && kr % 16 == 0);
    assert forall|q: int| 0 <= q < p.seq && !sees(p.causal, q, key) implies #[trigger] g(q)
        == 0 by {
        assert(dk_ok(m, e, p, bh, key, col, q));
        assert((e.half)(p.dst_at(m, bh, q, key)) == 0);
    }
    lemma_key_sweep(p, key);
    lemma_swept_queries(p, key, g);
    let a = p.dst_tiles(m, bh, kr);
    let b = p.q_half(m, bh);
    assert forall|r: int, t: int| start <= r < start + n && 0 <= t < 16 implies #[trigger] linked(
        e,
        a,
        b,
        h,
        i,
        g,
        r,
        t,
    ) by {
        let q = r * 16 + t;
        assert(dk_ok(m, e, p, bh, key, col, q));
        lemma_tile_elements(m, p, bh, r * 16, kr, q, key);
    }
    lemma_accumulate_exact(m, e, a, b, h, start, n, i, g);
}

/// The value gradient is the product of softmax weights and output gradients
/// over all queries of the sequence, in which masked pairs do not count.
pub proof fn dv_is_product<Q, D>(
    m: Model<Q, D>,
    e: Reading,
    p: Problem<Q, D>,
    bh: int,
    key: int,
    col: int,
)
    requires
        exact(m, e),
        masks(m, e),
        p.seq % 64 == 0,
        0 <= key < p.seq,
        0 <= col < HEAD_DIM,
        dv_reads(m, e, p, bh, key, col),
    ensures
        (e.full_ok)(p.dv_value(m, bh, key, col)),
        (e.full)(p.dv_value(m, bh, key, col)) == sum(
            dv_term(m, e, p, bh, key, col),
            0,
            p.seq as nat,
        ),
        forall|q: int|
            0 <= q < p.seq && !sees(p.causal, q, key) ==> #[trigger] dv_term(
                m,
                e,
                p,
                bh,
                key,
                col,
            )(q) == 0,
{
    let g = dv_term(m, e, p, bh, key, col);
    let start = p.first_q_tile(key);
    let n = p.q_tiles(key);
    let i = (key % 16) * 16 + col % 16;
    let kr = (key / 16) * 16;
    let h = col / 16;
    assert(i / 16 == key % 16 && i % 16 == col % 16 && 0 <= i < 256);
    assert(kr + i / 16 == key && h * 16 + i % 16 == col && kr % 16 == 0);
    assert forall|q: int| 0 <= q < p.seq && !sees(p.causal, q, key) implies #[trigger] g(q)
        == 0 by {
        assert(dv_ok(m, e, p, bh, key, col, q));
        assert((e.half)(p.pt_at(m, bh, q, key)) == 0);
    }
    lemma_key_sweep(p, key);
    lemma_swept_queries(p, key, g);
    let a = p.pt_tiles(m, bh, kr);
    let b = p.do_half(m, bh);
    assert forall|r: int, t: int| start <= r < start + n && 0 <= t < 16 implies #[trigger] linked(
        e,
        a,
        b,
        h,
        i,
        g,
        r,
        t,
    ) by {
        let q = r * 16 + t;
        assert(dv_ok(m, e, p, bh, key, col, q));
        lemma_tile_elements(m, p, bh, r * 16, kr, q, key);
    }
    lemma_accumulate_exact(m, e, a, b, h, start, n, i, g);
}

/// What the score and the weight gradient of query `q` for key `k` are
/// recomputed from stands for integers, and the products stay within the limit.
pub open spec fn pair_reads<Q, D>(
    m: Model<Q, D>,
    e: Reading,
    p: Problem<Q, D>,
    bh: int,
    q: int,
    k: int,
) -> bool {
    &&& rows_read(e, p.q_half(m, bh), q, p.k_half(m, bh), k)
    &&& rows_read(e, p.do_half(m, bh), q, p.v_half(m, bh), k)
}

/// The recomputed scores are the products of query and key rows, and the
/// recomputed weight gradients those of output-gradient and value rows, in the
/// query-gradient kernel and in the key- and value-gradient kernel.
pub proof fn recomputed_tiles_are_products<Q, D>(
    m: Model<Q, D>,
    e: Reading,
    p: Problem<Q, D>,
    bh: int,
    q: int,
    k: int,
)
    requires
        exact(m, e),
        pair_reads(m, e, p, bh, q, k),
    ensures
        (e.full_ok)(p.s_at(m, bh, q, k)),
        (e.full)(p.s_at(m, bh, q, k)) == sum(
            row_product(e, p.q_half(m, bh), q, p.k_half(m, bh), k),
            0,
            HEAD_DIM as nat,
        ),
        (e.full_ok)(p.st_at(m, bh, q, k)),
        (e.full)(p.st_at(m, bh, q, k)) == (e.full)(p.s_at(m, bh, q, k)),
        (e.full_ok)(p.dp_at(m, bh, q, k)),
        (e.full)(p.dp_at(m, bh, q, k)) == sum(
            row_product(e, p.do_half(m, bh), q, p.v_half(m, bh), k),
            0,
            HEAD_DIM as nat,
        ),
        (e.full_ok)(p.dpt_at(m, bh, q, k)),
        (e.full)(p.dpt_at(m, bh, q, k)) == (e.full)(p.dp_at(m, bh, q, k)),
{
    let qr = (q / 16) * 16;
    let kr = (k / 16) * 16;
    let i = (q % 16) * 16 + k % 16;
    let j = (k % 16) * 16 + q % 16;
    assert(i / 16 == q % 16 && i % 16 == k % 16 && qr + i / 16 == q && kr + i % 16 == k);
    assert(j / 16 == k % 16 && j % 16 == q % 16 && kr + j / 16 == k && qr + j % 16 == q);
    let (qm, km, vm, dom) = (p.q_half(m, bh), p.k_half(m, bh), p.v_half(m, bh), p.do_half(m, bh));
    lemma_sum_agrees_swapped(e, qm, q, km, k, HEAD_DIM as nat);
    lemma_sum_agrees_swapped(e, dom, q, vm, k, HEAD_DIM as nat);
    assert forall|c: int| 0 <= c < HEAD_DIM implies #[trigger] column_ok(e, km, k, qm, q, c) by {
        assert(column_ok(e, qm, q, km, k, c));
    }
    assert forall|c: int| 0 <= c < HEAD_DIM implies #[trigger] column_ok(e, vm, k, dom, q, c) by {
        assert(column_ok(e, dom, q, vm, k, c));
    }
    lemma_cross_exact(m, e, qm, qr, km, kr, HD_TILES as nat, i);
    lemma_cross_exact(m, e, km, kr, qm, qr, HD_TILES as nat, j);
    lemma_cross_exact(m, e, dom, qr, vm, kr, HD_TILES as nat, i);
    lemma_cross_exact(m, e, vm, kr, dom, qr, HD_TILES as nat, j);
}

/// The product of two rows does not depend on their order.
proof fn lemma_sum_agrees_swapped(e: Reading, x: Matrix, xr: int, y: Matrix, yr: int, n: nat)
    ensures
        sum(row_product(e, x, xr, y, yr), 0, n) == sum(row_product(e, y, yr, x, xr), 0, n),
        sum(magnitude(row_product(e, x, xr, y, yr)), 0, n) == sum(
            magnitude(row_product(e, y, yr, x, xr)),
            0,
            n,
        ),
{
    let f = row_product(e, x, xr, y, yr);
    let g = row_product(e, y, yr, x, xr);
    assert forall|t: int| 0 <= t < n implies #[trigger] f(0 + t) == g(0 + t) by {
        let a = (e.half)(x(xr, t));
        let b = (e.half)(y(yr, t));
        assert(a * b == b * a) by (nonlinear_arith);
    }
    lemma_sum_agrees(f, 0, g, 0, n);
}

} // verus!
