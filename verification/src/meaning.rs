//! What the gradients are, written out over the input arrays and the
//! operations on numbers.

use vstd::prelude::*;
use crate::algebra::{grads_exact, Factors};
use crate::attention::{
    lemma_tile_elements, problem, tile, tile_t, zero_tile, Matrix, Problem, Tiles,
};
use crate::exact::{
    dk_is_product, dk_reads, dk_term, dq_is_product, dq_reads, dq_term, dv_is_product, dv_reads,
    dv_term, exact, masks, row_sum_is_a_sum, row_terms, rows_exact, Reading,
};
use crate::geometry::{element, kv_end, q_start, sees};
use crate::locality::unmasked;
use crate::math::Model;
use crate::prepass::row_sum;
use crate::sums::{abs, lemma_sum_agrees, magnitude, sum};

verus! {

/// The position of an element in its tensor, counted row by row.
proof fn lemma_place(bh: int, seq: int, row: int, col: int)
    ensures
        element(bh, seq, row, col) == (bh * seq + row) * 64 + col,
{
    assert((bh * seq + row) * 64 == bh * seq * 64 + row * 64) by (nonlinear_arith);
}

/// A query sees every key without the causal mask, and the keys at or before it
/// under the mask.
pub proof fn the_mask_hides_later_keys(causal: bool, q: int, k: int)
    ensures
        sees(causal, q, k) <==> !causal || k <= q,
{
}

/// A sweep of the keys ends after the block of the query, or after all blocks
/// without the mask; one of the queries starts at the block of the key, or at
/// the first block.
pub proof fn sweeps_span_the_visible_blocks(causal: bool, block: int, seq: int)
    ensures
        causal ==> kv_end(causal, block, seq) == block + 1 && q_start(causal, block) == block,
        !causal ==> kv_end(causal, block, seq) == seq / 64 && q_start(causal, block) == 0,
{
}

/// Every step of a row sum adds the product of an output and an output gradient
/// in fp32.
pub proof fn a_row_step_adds_a_product<Q, D>(m: Model<Q, D>, s: u32, o: Q, do_: D)
    ensures
        m.row_step(s, o, do_) == (m.plus)(s, (m.times)((m.widen_q)(o), (m.widen_do)(do_))),
{
}

/// A row sum starts at zero and adds the products one after the other; `acc` is
/// the sum after each of them.
pub proof fn a_row_sum_adds_its_products<Q, D>(
    m: Model<Q, D>,
    o: Seq<Q>,
    do_: Seq<D>,
    base: int,
    n: nat,
    acc: spec_fn(int) -> u32,
)
    requires
        acc(0) == 0u32,
        forall|i: int|
            0 <= i < n ==> #[trigger] acc(i + 1) == (m.plus)(
                acc(i),
                (m.times)((m.widen_q)(o[base + i]), (m.widen_do)(do_[base + i])),
            ),
    ensures
        row_sum(m, o, do_, base, n) == acc(n as int),
    decreases n,
{
    if n > 0 {
        a_row_sum_adds_its_products(m, o, do_, base, (n - 1) as nat, acc);
        assert(acc(n - 1 + 1) == (m.plus)(
            acc(n - 1),
            (m.times)((m.widen_q)(o[base + (n - 1)]), (m.widen_do)(do_[base + (n - 1)])),
        ));
    }
}

/// Where widened numbers stand for integers, and their products and sums are
/// exact up to a limit, a row sum is the sum of the products of those integers.
pub proof fn a_row_sum_is_the_integer_sum<Q, D>(
    m: Model<Q, D>,
    e: Reading,
    left: spec_fn(u32) -> int,
    right: spec_fn(u32) -> int,
    left_ok: spec_fn(u32) -> bool,
    right_ok: spec_fn(u32) -> bool,
    o: Seq<Q>,
    do_: Seq<D>,
    base: int,
    n: nat,
)
    requires
        (e.full_ok)(0u32),
        (e.full)(0u32) == 0,
        forall|x: u32, y: u32|
            left_ok(x) && right_ok(y) ==> (e.full_ok)(#[trigger] (m.times)(x, y)) && (e.full)(
                (m.times)(x, y),
            ) == left(x) * right(y),
        forall|x: u32, y: u32|
            (e.full_ok)(x) && (e.full_ok)(y) && abs((e.full)(x)) + abs((e.full)(y)) <= e.limit
                ==> (e.full_ok)(#[trigger] (m.plus)(x, y)) && (e.full)((m.plus)(x, y)) == (e.full)(
                x,
            ) + (e.full)(y),
        forall|i: int|
            0 <= i < n ==> left_ok((m.widen_q)(#[trigger] o[base + i])) && right_ok(
                (m.widen_do)(do_[base + i]),
            ),
        sum(
            |i: int| abs(left((m.widen_q)(o[base + i])) * right((m.widen_do)(do_[base + i]))),
            0,
            n,
        ) <= e.limit,
    ensures
        (e.full_ok)(row_sum(m, o, do_, base, n)),
        (e.full)(row_sum(m, o, do_, base, n)) == sum(
            |i: int| left((m.widen_q)(o[base + i])) * right((m.widen_do)(do_[base + i])),
            0,
            n,
        ),
{
    let ok = |x: Q, y: D| left_ok((m.widen_q)(x)) && right_ok((m.widen_do)(y));
    let term = |x: Q, y: D| left((m.widen_q)(x)) * right((m.widen_do)(y));
    let row = row_terms(term, o, do_, base);
    let small = |i: int| abs(left((m.widen_q)(o[base + i])) * right((m.widen_do)(do_[base + i])));
    let plain = |i: int| left((m.widen_q)(o[base + i])) * right((m.widen_do)(do_[base + i]));
    assert(rows_exact(m, e, ok, term));
    assert forall|t: int| 0 <= t < n implies #[trigger] magnitude(row)(0 + t) == small(0 + t) by {}
    lemma_sum_agrees(magnitude(row), 0, small, 0, n);
    assert forall|t: int| 0 <= t < n implies #[trigger] row(0 + t) == plain(0 + t) by {}
    lemma_sum_agrees(row, 0, plain, 0, n);
    row_sum_is_a_sum(m, e, ok, term, o, do_, base, n);
}

/// The softmax weight of a pair that is seen is `exp(s · scale - lse)`, and
/// that of a pair that is not is zero.
pub proof fn a_weight_is_an_exponential<Q, D>(
    m: Model<Q, D>,
    p: Problem<Q, D>,
    bh: int,
    q: int,
    k: int,
    s: u32,
)
    ensures
        m.prob(s, p.scale, p.lse[bh * p.seq + q]) == (m.exp)(
            (m.minus)((m.times)(s, p.scale), p.lse[bh * p.seq + q]),
        ),
        (!p.causal || k <= q) ==> p.p_value(m, bh, q, k, s) == (m.exp)(
            (m.minus)((m.times)(s, p.scale), p.lse[bh * p.seq + q]),
        ),
        p.causal && q < k ==> p.p_value(m, bh, q, k, s) == 0u32,
{
}

/// The mask takes nothing from a pair whose key is at or before its query.
pub proof fn the_mask_spares_earlier_keys<Q, D>(
    m: Model<Q, D>,
    p: Problem<Q, D>,
    bh: int,
    q: int,
    k: int,
    s: u32,
    dp: u32,
)
    requires
        k <= q,
    ensures
        p.p_value(m, bh, q, k, s) == unmasked(p).p_value(m, bh, q, k, s),
        p.ds_value(m, bh, q, k, s, dp) == unmasked(p).ds_value(m, bh, q, k, s, dp),
        p.pt_at(m, bh, q, k) == unmasked(p).pt_at(m, bh, q, k),
        p.ds_at(m, bh, q, k) == unmasked(p).ds_at(m, bh, q, k),
        p.dst_at(m, bh, q, k) == unmasked(p).dst_at(m, bh, q, k),
{
    let free = unmasked(p);
    assert(p.q_half(m, bh) =~= free.q_half(m, bh));
    assert(p.k_half(m, bh) =~= free.k_half(m, bh));
    assert(p.v_half(m, bh) =~= free.v_half(m, bh));
    assert(p.do_half(m, bh) =~= free.do_half(m, bh));
}

/// The bf16 weight that the value gradient multiplies is the rounded
/// exponential, whatever its size, or the rounded zero of a masked pair.
pub proof fn pt_rounds_the_exponential<Q, D>(m: Model<Q, D>, p: Problem<Q, D>, bh: int, q: int, k: int)
    ensures
        (!p.causal || k <= q) ==> p.pt_at(m, bh, q, k) == (m.narrow)(
            (m.exp)(
                (m.minus)((m.times)(p.st_at(m, bh, q, k), p.scale), p.lse[bh * p.seq + q]),
            ),
        ),
        p.causal && q < k ==> p.pt_at(m, bh, q, k) == (m.narrow)(0u32),
{
}

/// The bf16 score gradient that the query gradient multiplies is the rounded
/// `p · (dp - d) · scale`, whatever the weight `p` is.
pub proof fn ds_rounds_the_product<Q, D>(m: Model<Q, D>, p: Problem<Q, D>, bh: int, q: int, k: int)
    ensures
        (!p.causal || k <= q) ==> p.ds_at(m, bh, q, k) == (m.narrow)(
            (m.times)(
                (m.times)(
                    (m.exp)(
                        (m.minus)(
                            (m.times)(p.s_at(m, bh, q, k), p.scale),
                            p.lse[bh * p.seq + q],
                        ),
                    ),
                    (m.minus)(p.dp_at(m, bh, q, k), p.d[bh * p.seq + q]),
                ),
                p.scale,
            ),
        ),
        p.causal && q < k ==> p.ds_at(m, bh, q, k) == (m.narrow)(
            (m.times)(
                (m.times)(0u32, (m.minus)(p.dp_at(m, bh, q, k), p.d[bh * p.seq + q])),
                p.scale,
            ),
        ),
{
}

/// The bf16 score gradient that the key gradient multiplies is the rounded
/// `p · (dp - d) · scale`, whatever the weight `p` is.
pub proof fn dst_rounds_the_product<Q, D>(m: Model<Q, D>, p: Problem<Q, D>, bh: int, q: int, k: int)
    ensures
        (!p.causal || k <= q) ==> p.dst_at(m, bh, q, k) == (m.narrow)(
            (m.times)(
                (m.times)(
                    (m.exp)(
                        (m.minus)(
                            (m.times)(p.st_at(m, bh, q, k), p.scale),
                            p.lse[bh * p.seq + q],
                        ),
                    ),
                    (m.minus)(p.dpt_at(m, bh, q, k), p.d[bh * p.seq + q]),
                ),
                p.scale,
            ),
        ),
        p.causal && q < k ==> p.dst_at(m, bh, q, k) == (m.narrow)(
            (m.times)(
                (m.times)(0u32, (m.minus)(p.dpt_at(m, bh, q, k), p.d[bh * p.seq + q])),
                p.scale,
            ),
        ),
{
}

/// The integers that the intermediate results of a score gradient stand for.
pub ghost struct Steps {
    /// Whether `dp - d` stands for an integer.
    pub diff_ok: spec_fn(u32) -> bool,
    /// The integer that `dp - d` stands for.
    pub diff: spec_fn(u32) -> int,
    /// Whether `p · (dp - d)` stands for an integer.
    pub part_ok: spec_fn(u32) -> bool,
    /// The integer that `p · (dp - d)` stands for.
    pub part: spec_fn(u32) -> int,
    /// Whether `p · (dp - d) · scale` stands for an integer.
    pub whole_ok: spec_fn(u32) -> bool,
    /// The integer that `p · (dp - d) · scale` stands for.
    pub whole: spec_fn(u32) -> int,
}

/// Where differences, products and roundings are exact, so are score
/// gradients: they stand for the product of a weight, the difference of a
/// weight gradient and a row sum, and the scale.
pub proof fn score_gradients_are_products<Q, D>(m: Model<Q, D>, e: Reading, f: Factors, g: Steps)
    requires
        f.unit != 0,
        (f.weight)(0u32) == 0,
        forall|x: u32, y: u32|
            (e.full_ok)(x) && (e.full_ok)(y) ==> (g.diff_ok)(#[trigger] (m.minus)(x, y)) && (
            g.diff)((m.minus)(x, y)) == (e.full)(x) - (e.full)(y),
        forall|p: u32, x: u32|
            (f.weight_ok)(p) && (g.diff_ok)(x) ==> (g.part_ok)(#[trigger] (m.times)(p, x)) && (
            g.part)((m.times)(p, x)) == (f.weight)(p) * (g.diff)(x),
        forall|x: u32, scale: u32|
            (g.part_ok)(x) && (f.fits)((g.part)(x) * (f.scale)(scale)) ==> (g.whole_ok)(
                #[trigger] (m.times)(x, scale),
            ) && (g.whole)((m.times)(x, scale)) == (g.part)(x) * (f.scale)(scale),
        forall|x: u32|
            (g.whole_ok)(x) && (f.fits)((g.whole)(x)) ==> f.unit * (e.half)(
                #[trigger] (m.narrow)(x),
            ) == (g.whole)(x),
    ensures
        grads_exact(m, e, f),
        forall|p: u32, dp: u32, d: u32, scale: u32|
            (f.weight_ok)(p) && (e.full_ok)(dp) && (e.full_ok)(d) && (f.fits)(
                (f.weight)(p) * ((e.full)(dp) - (e.full)(d)) * (f.scale)(scale),
            ) ==> f.unit * (e.half)((m.narrow)(#[trigger] m.grad(p, dp, d, scale))) == (f.weight)(p)
                * ((e.full)(dp) - (e.full)(d)) * (f.scale)(scale),
{
    assert forall|p: u32, dp: u32, d: u32, scale: u32|
        (f.weight_ok)(p) && (e.full_ok)(dp) && (e.full_ok)(d) && (f.fits)(
            (f.weight)(p) * ((e.full)(dp) - (e.full)(d)) * (f.scale)(scale),
        ) implies f.unit * (e.half)((m.narrow)(#[trigger] m.grad(p, dp, d, scale))) == (f.weight)(p)
        * ((e.full)(dp) - (e.full)(d)) * (f.scale)(scale) by {
        let x = (m.minus)(dp, d);
        let y = (m.times)(p, x);
        let z = (m.times)(y, scale);
        assert((g.whole)(z) == (f.weight)(p) * ((e.full)(dp) - (e.full)(d)) * (f.scale)(scale));
        assert(f.unit * (e.half)((m.narrow)(z)) == (g.whole)(z));
    }
}

/// The operands of product `g` over the head dimension are tiles of `x` and
/// `y`.
spec fn cross_operands(
    left: spec_fn(int) -> Seq<u16>,
    right: spec_fn(int) -> Seq<u16>,
    x: Matrix,
    xr: int,
    y: Matrix,
    yr: int,
    g: int,
) -> bool {
    left(g) == tile(x, xr, g * 16) && right(g) == tile_t(y, yr, g * 16)
}

/// The operands of product `t` of a sweep are a tile of `a` and one of `b`.
spec fn sweep_operands(
    left: spec_fn(int) -> Seq<u16>,
    right: spec_fn(int) -> Seq<u16>,
    a: Tiles,
    b: Matrix,
    h: int,
    t: int,
) -> bool {
    left(t) == a(t * 16) && right(t) == tile(b, t * 16, h * 16)
}

/// The products over the head dimension, one after the other.
proof fn lemma_cross_chain<Q, D>(
    m: Model<Q, D>,
    x: Matrix,
    xr: int,
    y: Matrix,
    yr: int,
    left: spec_fn(int) -> Seq<u16>,
    right: spec_fn(int) -> Seq<u16>,
    acc: spec_fn(int) -> Seq<u32>,
    h: nat,
)
    requires
        h <= 4,
        forall|g: int|
            0 <= g < 4 ==> #[trigger] cross_operands(left, right, x, xr, y, yr, g),
        acc(0).len() == 256,
        forall|i: int| 0 <= i < 256 ==> #[trigger] acc(0)[i] == 0u32,
        forall|g: int|
            0 <= g < 4 ==> #[trigger] acc(g + 1) == (m.mma)(left(g), right(g), acc(g)),
    ensures
        m.cross_partial(x, xr, y, yr, h) == acc(h as int),
    decreases h,
{
    if h == 0 {
        assert(acc(0) =~= zero_tile());
    } else {
        let g = h - 1;
        lemma_cross_chain(m, x, xr, y, yr, left, right, acc, g as nat);
        assert(cross_operands(left, right, x, xr, y, yr, g));
        assert(acc(g + 1) == (m.mma)(left(g), right(g), acc(g)));
    }
}

/// A tile of `x · yᵀ` is accumulated over the four tiles of the head dimension,
/// from rows of `x` and transposed rows of `y`.
///
/// `left`, `right` and `acc` are the operands and the accumulators of the four
/// tile products.
pub proof fn a_cross_tile_accumulates_four_products<Q, D>(
    m: Model<Q, D>,
    x: Matrix,
    xr: int,
    y: Matrix,
    yr: int,
    left: spec_fn(int) -> Seq<u16>,
    right: spec_fn(int) -> Seq<u16>,
    acc: spec_fn(int) -> Seq<u32>,
)
    requires
        forall|h: int| 0 <= h < 4 ==> (#[trigger] left(h)).len() == 256,
        forall|h: int| 0 <= h < 4 ==> (#[trigger] right(h)).len() == 256,
        forall|h: int, i: int|
            0 <= h < 4 && 0 <= i < 256 ==> #[trigger] left(h)[i] == x(xr + i / 16, h * 16 + i % 16),
        forall|h: int, i: int|
            0 <= h < 4 && 0 <= i < 256 ==> #[trigger] right(h)[i] == y(
                yr + i % 16,
                h * 16 + i / 16,
            ),
        acc(0).len() == 256,
        forall|i: int| 0 <= i < 256 ==> #[trigger] acc(0)[i] == 0u32,
        forall|h: int|
            0 <= h < 4 ==> #[trigger] acc(h + 1) == (m.mma)(left(h), right(h), acc(h)),
    ensures
        m.cross(x, xr, y, yr) == acc(4),
{
    assert forall|h: int| 0 <= h < 4 implies #[trigger] cross_operands(
        left,
        right,
        x,
        xr,
        y,
        yr,
        h,
    ) by {
        assert(left(h).len() == 256 && right(h).len() == 256);
        assert(left(h) =~= tile(x, xr, h * 16));
        assert(right(h) =~= tile_t(y, yr, h * 16));
    }
    lemma_cross_chain(m, x, xr, y, yr, left, right, acc, 4);
}

/// The products of a sweep, one after the other.
proof fn lemma_accumulate_chain<Q, D>(
    m: Model<Q, D>,
    a: Tiles,
    b: Matrix,
    h: int,
    start: int,
    n: nat,
    left: spec_fn(int) -> Seq<u16>,
    right: spec_fn(int) -> Seq<u16>,
    acc: spec_fn(int) -> Seq<u32>,
)
    requires
        forall|t: int|
            start <= t < start + n ==> #[trigger] sweep_operands(left, right, a, b, h, t),
        acc(start).len() == 256,
        forall|i: int| 0 <= i < 256 ==> #[trigger] acc(start)[i] == 0u32,
        forall|t: int|
            start <= t < start + n ==> #[trigger] acc(t + 1) == (m.mma)(left(t), right(t), acc(t)),
    ensures
        m.accumulate(a, b, h, start, n) == acc(start + n),
    decreases n,
{
    if n == 0 {
        assert(acc(start) =~= zero_tile());
    } else {
        let t = start + n - 1;
        lemma_accumulate_chain(m, a, b, h, start, (n - 1) as nat, left, right, acc);
        assert(sweep_operands(left, right, a, b, h, t));
        assert(acc(t + 1) == (m.mma)(left(t), right(t), acc(t)));
    }
}

/// The score of a pair in the query-gradient kernel is the accumulated product of
/// its query and key rows in bf16.
///
/// `left`, `right` and `acc` are the operands and the accumulators of the four
/// tile products over the head dimension.
pub proof fn s_is_query_times_key<Q, D>(
    m: Model<Q, D>,
    p: Problem<Q, D>,
    bh: int,
    q: int,
    k: int,
    left: spec_fn(int) -> Seq<u16>,
    right: spec_fn(int) -> Seq<u16>,
    acc: spec_fn(int) -> Seq<u32>,
)
    requires
        forall|h: int| 0 <= h < 4 ==> (#[trigger] left(h)).len() == 256,
        forall|h: int| 0 <= h < 4 ==> (#[trigger] right(h)).len() == 256,
        forall|h: int, i: int|
            0 <= h < 4 && 0 <= i < 256 ==> #[trigger] left(h)[i] == (m.narrow_q)(
                p.q[(bh * p.seq + (q / 16) * 16 + i / 16) * 64 + h * 16 + i % 16],
            ),
        forall|h: int, i: int|
            0 <= h < 4 && 0 <= i < 256 ==> #[trigger] right(h)[i] == (m.narrow_q)(
                p.k[(bh * p.seq + (k / 16) * 16 + i % 16) * 64 + h * 16 + i / 16],
            ),
        acc(0).len() == 256,
        forall|i: int| 0 <= i < 256 ==> #[trigger] acc(0)[i] == 0u32,
        forall|h: int|
            0 <= h < 4 ==> #[trigger] acc(h + 1) == (m.mma)(left(h), right(h), acc(h)),
    ensures
        p.s_at(m, bh, q, k) == acc(4)[(q % 16) * 16 + k % 16],
{
    let (x, y) = (p.q_half(m, bh), p.k_half(m, bh));
    let (xr, yr) = ((q / 16) * 16, (k / 16) * 16);
    assert forall|h: int| 0 <= h < 4 implies #[trigger] cross_operands(
        left,
        right,
        x,
        xr,
        y,
        yr,
        h,
    ) by {
        assert(left(h).len() == 256 && right(h).len() == 256);
        assert forall|i: int| 0 <= i < 256 implies #[trigger] left(h)[i] == tile(x, xr, h * 16)[i] by {
            lemma_place(bh, p.seq, xr + i / 16, h * 16 + i % 16);
        }
        assert forall|i: int| 0 <= i < 256 implies #[trigger] right(h)[i] == tile_t(
            y,
            yr,
            h * 16,
        )[i] by {
            lemma_place(bh, p.seq, yr + i % 16, h * 16 + i / 16);
        }
        assert(left(h) =~= tile(x, xr, h * 16));
        assert(right(h) =~= tile_t(y, yr, h * 16));
    }
    lemma_cross_chain(m, x, xr, y, yr, left, right, acc, 4);
}

/// The weight gradient of a pair in the query-gradient kernel is the accumulated
/// product of its output-gradient and value rows in bf16.
///
/// `left`, `right` and `acc` are the operands and the accumulators of the four
/// tile products over the head dimension.
pub proof fn dp_is_output_gradient_times_value<Q, D>(
    m: Model<Q, D>,
    p: Problem<Q, D>,
    bh: int,
    q: int,
    k: int,
    left: spec_fn(int) -> Seq<u16>,
    right: spec_fn(int) -> Seq<u16>,
    acc: spec_fn(int) -> Seq<u32>,
)
    requires
        forall|h: int| 0 <= h < 4 ==> (#[trigger] left(h)).len() == 256,
        forall|h: int| 0 <= h < 4 ==> (#[trigger] right(h)).len() == 256,
        forall|h: int, i: int|
            0 <= h < 4 && 0 <= i < 256 ==> #[trigger] left(h)[i] == (m.narrow_do)(
                p.do_[(bh * p.seq + (q / 16) * 16 + i / 16) * 64 + h * 16 + i % 16],
            ),
        forall|h: int, i: int|
            0 <= h < 4 && 0 <= i < 256 ==> #[trigger] right(h)[i] == (m.narrow_q)(
                p.v[(bh * p.seq + (k / 16) * 16 + i % 16) * 64 + h * 16 + i / 16],
            ),
        acc(0).len() == 256,
        forall|i: int| 0 <= i < 256 ==> #[trigger] acc(0)[i] == 0u32,
        forall|h: int|
            0 <= h < 4 ==> #[trigger] acc(h + 1) == (m.mma)(left(h), right(h), acc(h)),
    ensures
        p.dp_at(m, bh, q, k) == acc(4)[(q % 16) * 16 + k % 16],
{
    let (x, y) = (p.do_half(m, bh), p.v_half(m, bh));
    let (xr, yr) = ((q / 16) * 16, (k / 16) * 16);
    assert forall|h: int| 0 <= h < 4 implies #[trigger] cross_operands(
        left,
        right,
        x,
        xr,
        y,
        yr,
        h,
    ) by {
        assert(left(h).len() == 256 && right(h).len() == 256);
        assert forall|i: int| 0 <= i < 256 implies #[trigger] left(h)[i] == tile(x, xr, h * 16)[i] by {
            lemma_place(bh, p.seq, xr + i / 16, h * 16 + i % 16);
        }
        assert forall|i: int| 0 <= i < 256 implies #[trigger] right(h)[i] == tile_t(
            y,
            yr,
            h * 16,
        )[i] by {
            lemma_place(bh, p.seq, yr + i % 16, h * 16 + i / 16);
        }
        assert(left(h) =~= tile(x, xr, h * 16));
        assert(right(h) =~= tile_t(y, yr, h * 16));
    }
    lemma_cross_chain(m, x, xr, y, yr, left, right, acc, 4);
}

/// The score of a pair in the key- and value-gradient kernel is the accumulated
/// product of its key and query rows in bf16.
///
/// `left`, `right` and `acc` are the operands and the accumulators of the four
/// tile products over the head dimension.
pub proof fn st_is_key_times_query<Q, D>(
    m: Model<Q, D>,
    p: Problem<Q, D>,
    bh: int,
    q: int,
    k: int,
    left: spec_fn(int) -> Seq<u16>,
    right: spec_fn(int) -> Seq<u16>,
    acc: spec_fn(int) -> Seq<u32>,
)
    requires
        forall|h: int| 0 <= h < 4 ==> (#[trigger] left(h)).len() == 256,
        forall|h: int| 0 <= h < 4 ==> (#[trigger] right(h)).len() == 256,
        forall|h: int, i: int|
            0 <= h < 4 && 0 <= i < 256 ==> #[trigger] left(h)[i] == (m.narrow_q)(
                p.k[(bh * p.seq + (k / 16) * 16 + i / 16) * 64 + h * 16 + i % 16],
            ),
        forall|h: int, i: int|
            0 <= h < 4 && 0 <= i < 256 ==> #[trigger] right(h)[i] == (m.narrow_q)(
                p.q[(bh * p.seq + (q / 16) * 16 + i % 16) * 64 + h * 16 + i / 16],
            ),
        acc(0).len() == 256,
        forall|i: int| 0 <= i < 256 ==> #[trigger] acc(0)[i] == 0u32,
        forall|h: int|
            0 <= h < 4 ==> #[trigger] acc(h + 1) == (m.mma)(left(h), right(h), acc(h)),
    ensures
        p.st_at(m, bh, q, k) == acc(4)[(k % 16) * 16 + q % 16],
{
    let (x, y) = (p.k_half(m, bh), p.q_half(m, bh));
    let (xr, yr) = ((k / 16) * 16, (q / 16) * 16);
    assert forall|h: int| 0 <= h < 4 implies #[trigger] cross_operands(
        left,
        right,
        x,
        xr,
        y,
        yr,
        h,
    ) by {
        assert(left(h).len() == 256 && right(h).len() == 256);
        assert forall|i: int| 0 <= i < 256 implies #[trigger] left(h)[i] == tile(x, xr, h * 16)[i] by {
            lemma_place(bh, p.seq, xr + i / 16, h * 16 + i % 16);
        }
        assert forall|i: int| 0 <= i < 256 implies #[trigger] right(h)[i] == tile_t(
            y,
            yr,
            h * 16,
        )[i] by {
            lemma_place(bh, p.seq, yr + i % 16, h * 16 + i / 16);
        }
        assert(left(h) =~= tile(x, xr, h * 16));
        assert(right(h) =~= tile_t(y, yr, h * 16));
    }
    lemma_cross_chain(m, x, xr, y, yr, left, right, acc, 4);
}

/// The weight gradient of a pair in the key- and value-gradient kernel is the
/// accumulated product of its value and output-gradient rows in bf16.
///
/// `left`, `right` and `acc` are the operands and the accumulators of the four
/// tile products over the head dimension.
pub proof fn dpt_is_value_times_output_gradient<Q, D>(
    m: Model<Q, D>,
    p: Problem<Q, D>,
    bh: int,
    q: int,
    k: int,
    left: spec_fn(int) -> Seq<u16>,
    right: spec_fn(int) -> Seq<u16>,
    acc: spec_fn(int) -> Seq<u32>,
)
    requires
        forall|h: int| 0 <= h < 4 ==> (#[trigger] left(h)).len() == 256,
        forall|h: int| 0 <= h < 4 ==> (#[trigger] right(h)).len() == 256,
        forall|h: int, i: int|
            0 <= h < 4 && 0 <= i < 256 ==> #[trigger] left(h)[i] == (m.narrow_q)(
                p.v[(bh * p.seq + (k / 16) * 16 + i / 16) * 64 + h * 16 + i % 16],
            ),
        forall|h: int, i: int|
            0 <= h < 4 && 0 <= i < 256 ==> #[trigger] right(h)[i] == (m.narrow_do)(
                p.do_[(bh * p.seq + (q / 16) * 16 + i % 16) * 64 + h * 16 + i / 16],
            ),
        acc(0).len() == 256,
        forall|i: int| 0 <= i < 256 ==> #[trigger] acc(0)[i] == 0u32,
        forall|h: int|
            0 <= h < 4 ==> #[trigger] acc(h + 1) == (m.mma)(left(h), right(h), acc(h)),
    ensures
        p.dpt_at(m, bh, q, k) == acc(4)[(k % 16) * 16 + q % 16],
{
    let (x, y) = (p.v_half(m, bh), p.do_half(m, bh));
    let (xr, yr) = ((k / 16) * 16, (q / 16) * 16);
    assert forall|h: int| 0 <= h < 4 implies #[trigger] cross_operands(
        left,
        right,
        x,
        xr,
        y,
        yr,
        h,
    ) by {
        assert(left(h).len() == 256 && right(h).len() == 256);
        assert forall|i: int| 0 <= i < 256 implies #[trigger] left(h)[i] == tile(x, xr, h * 16)[i] by {
            lemma_place(bh, p.seq, xr + i / 16, h * 16 + i % 16);
        }
        assert forall|i: int| 0 <= i < 256 implies #[trigger] right(h)[i] == tile_t(
            y,
            yr,
            h * 16,
        )[i] by {
            lemma_place(bh, p.seq, yr + i % 16, h * 16 + i / 16);
        }
        assert(left(h) =~= tile(x, xr, h * 16));
        assert(right(h) =~= tile_t(y, yr, h * 16));
    }
    lemma_cross_chain(m, x, xr, y, yr, left, right, acc, 4);
}

/// What is written of the query gradient at row `row` and column `col` of head
/// `bh`: the accumulated product of the row's score gradients with the keys,
/// over all key tiles up to the query's block under the mask and over all key
/// tiles without it.
///
/// `left`, `right` and `acc` are the operands and the accumulators of the tile
/// products, by key tile.
pub proof fn dq_is_score_gradient_times_key<Q, D>(
    m: Model<Q, D>,
    p: Problem<Q, D>,
    heads: int,
    out: Seq<u32>,
    bh: int,
    row: int,
    col: int,
    left: spec_fn(int) -> Seq<u16>,
    right: spec_fn(int) -> Seq<u16>,
    acc: spec_fn(int) -> Seq<u32>,
    end: int,
)
    requires
        p.dq_written(m, heads, out),
        p.seq % 64 == 0,
        0 <= bh < heads,
        0 <= row < p.seq,
        0 <= col < 64,
        end == if p.causal {
            (row / 64) * 4 + 4
        } else {
            p.seq / 16
        },
        forall|t: int| 0 <= t < end ==> (#[trigger] left(t)).len() == 256,
        forall|t: int| 0 <= t < end ==> (#[trigger] right(t)).len() == 256,
        forall|t: int, i: int|
            0 <= t < end && 0 <= i < 256 ==> #[trigger] left(t)[i] == p.ds_at(
                m,
                bh,
                (row / 16) * 16 + i / 16,
                t * 16 + i % 16,
            ),
        forall|t: int, i: int|
            0 <= t < end && 0 <= i < 256 ==> #[trigger] right(t)[i] == (m.narrow_q)(
                p.k[(bh * p.seq + t * 16 + i / 16) * 64 + (col / 16) * 16 + i % 16],
            ),
        acc(0).len() == 256,
        forall|i: int| 0 <= i < 256 ==> #[trigger] acc(0)[i] == 0u32,
        forall|t: int|
            0 <= t < end ==> #[trigger] acc(t + 1) == (m.mma)(left(t), right(t), acc(t)),
    ensures
        out[(bh * p.seq + row) * 64 + col] == acc(end)[(row % 16) * 16 + col % 16],
        p.dq_value(m, bh, row, col) == acc(end)[(row % 16) * 16 + col % 16],
{
    let (qr, h) = ((row / 16) * 16, col / 16);
    let (a, b) = (p.ds_tiles(m, bh, qr), p.k_half(m, bh));
    assert(qr % 16 == 0);
    assert forall|t: int| 0 <= t < 0 + end implies #[trigger] sweep_operands(
        left,
        right,
        a,
        b,
        h,
        t,
    ) by {
        assert(left(t).len() == 256 && right(t).len() == 256);
        assert forall|i: int| 0 <= i < 256 implies #[trigger] left(t)[i] == a(t * 16)[i] by {
            lemma_tile_elements(m, p, bh, qr, t * 16, qr + i / 16, t * 16 + i % 16);
            assert((i / 16) * 16 + i % 16 == i);
        }
        assert forall|i: int| 0 <= i < 256 implies #[trigger] right(t)[i] == tile(
            b,
            t * 16,
            h * 16,
        )[i] by {
            lemma_place(bh, p.seq, t * 16 + i / 16, h * 16 + i % 16);
        }
        assert(left(t) =~= a(t * 16));
        assert(right(t) =~= tile(b, t * 16, h * 16));
    }
    lemma_accumulate_chain(m, a, b, h, 0, end as nat, left, right, acc);
    lemma_place(bh, p.seq, row, col);
    let blocks = p.seq / 64;
    assert(p.seq == blocks * 64 && p.seq / 16 == blocks * 4);
    assert(kv_end(p.causal, row / 64, p.seq) * 4 == end);
    assert(out[element(bh, p.seq, row, col)] == p.dq_value(m, bh, row, col));
}

/// What is written of the key gradient at row `row` and column `col` of head
/// `bh`: the accumulated product of the key's score gradients with the queries,
/// over all query tiles from the key's block on under the mask and over all
/// query tiles without it.
///
/// `left`, `right` and `acc` are the operands and the accumulators of the tile
/// products, by query tile.
pub proof fn dk_is_score_gradient_times_query<Q, D>(
    m: Model<Q, D>,
    p: Problem<Q, D>,
    heads: int,
    out: Seq<u32>,
    bh: int,
    row: int,
    col: int,
    left: spec_fn(int) -> Seq<u16>,
    right: spec_fn(int) -> Seq<u16>,
    acc: spec_fn(int) -> Seq<u32>,
    start: int,
)
    requires
        p.dk_written(m, heads, out),
        p.seq % 64 == 0,
        0 <= bh < heads,
        0 <= row < p.seq,
        0 <= col < 64,
        start == if p.causal {
            (row / 64) * 4
        } else {
            0
        },
        forall|t: int| start <= t < p.seq / 16 ==> (#[trigger] left(t)).len() == 256,
        forall|t: int| start <= t < p.seq / 16 ==> (#[trigger] right(t)).len() == 256,
        forall|t: int, i: int|
            start <= t < p.seq / 16 && 0 <= i < 256 ==> #[trigger] left(t)[i] == p.dst_at(
                m,
                bh,
                t * 16 + i % 16,
                (row / 16) * 16 + i / 16,
            ),
        forall|t: int, i: int|
            start <= t < p.seq / 16 && 0 <= i < 256 ==> #[trigger] right(t)[i] == (m.narrow_q)(
                p.q[(bh * p.seq + t * 16 + i / 16) * 64 + (col / 16) * 16 + i % 16],
            ),
        acc(start).len() == 256,
        forall|i: int| 0 <= i < 256 ==> #[trigger] acc(start)[i] == 0u32,
        forall|t: int|
            start <= t < p.seq / 16 ==> #[trigger] acc(t + 1) == (m.mma)(
                left(t),
                right(t),
                acc(t),
            ),
    ensures
        out[(bh * p.seq + row) * 64 + col] == acc(p.seq / 16)[(row % 16) * 16 + col % 16],
        p.dk_value(m, bh, row, col) == acc(p.seq / 16)[(row % 16) * 16 + col % 16],
{
    let (kr, h) = ((row / 16) * 16, col / 16);
    let (a, b) = (p.dst_tiles(m, bh, kr), p.q_half(m, bh));
    let blocks = p.seq / 64;
    assert(p.seq == blocks * 64 && p.seq / 16 == blocks * 4);
    let n = (p.seq / 16 - start) as nat;
    assert(start + n == p.seq / 16);
    assert(kr % 16 == 0);
    assert forall|t: int| start <= t < start + n implies #[trigger] sweep_operands(
        left,
        right,
        a,
        b,
        h,
        t,
    ) by {
        assert(left(t).len() == 256 && right(t).len() == 256);
        assert forall|i: int| 0 <= i < 256 implies #[trigger] left(t)[i] == a(t * 16)[i] by {
            lemma_tile_elements(m, p, bh, t * 16, kr, t * 16 + i % 16, kr + i / 16);
            assert((i / 16) * 16 + i % 16 == i);
        }
        assert forall|i: int| 0 <= i < 256 implies #[trigger] right(t)[i] == tile(
            b,
            t * 16,
            h * 16,
        )[i] by {
            lemma_place(bh, p.seq, t * 16 + i / 16, h * 16 + i % 16);
        }
        assert(left(t) =~= a(t * 16));
        assert(right(t) =~= tile(b, t * 16, h * 16));
    }
    lemma_accumulate_chain(m, a, b, h, start, n, left, right, acc);
    lemma_place(bh, p.seq, row, col);
    assert(p.first_q_tile(row) == start && p.q_tiles(row) == n);
    assert(out[element(bh, p.seq, row, col)] == p.dk_value(m, bh, row, col));
}

/// What is written of the value gradient at row `row` and column `col` of head
/// `bh`: the accumulated product of the key's weights with the output gradients,
/// over all query tiles from the key's block on under the mask and over all
/// query tiles without it.
///
/// `left`, `right` and `acc` are the operands and the accumulators of the tile
/// products, by query tile.
pub proof fn dv_is_weight_times_output_gradient<Q, D>(
    m: Model<Q, D>,
    p: Problem<Q, D>,
    heads: int,
    out: Seq<u32>,
    bh: int,
    row: int,
    col: int,
    left: spec_fn(int) -> Seq<u16>,
    right: spec_fn(int) -> Seq<u16>,
    acc: spec_fn(int) -> Seq<u32>,
    start: int,
)
    requires
        p.dv_written(m, heads, out),
        p.seq % 64 == 0,
        0 <= bh < heads,
        0 <= row < p.seq,
        0 <= col < 64,
        start == if p.causal {
            (row / 64) * 4
        } else {
            0
        },
        forall|t: int| start <= t < p.seq / 16 ==> (#[trigger] left(t)).len() == 256,
        forall|t: int| start <= t < p.seq / 16 ==> (#[trigger] right(t)).len() == 256,
        forall|t: int, i: int|
            start <= t < p.seq / 16 && 0 <= i < 256 ==> #[trigger] left(t)[i] == p.pt_at(
                m,
                bh,
                t * 16 + i % 16,
                (row / 16) * 16 + i / 16,
            ),
        forall|t: int, i: int|
            start <= t < p.seq / 16 && 0 <= i < 256 ==> #[trigger] right(t)[i] == (m.narrow_do)(
                p.do_[(bh * p.seq + t * 16 + i / 16) * 64 + (col / 16) * 16 + i % 16],
            ),
        acc(start).len() == 256,
        forall|i: int| 0 <= i < 256 ==> #[trigger] acc(start)[i] == 0u32,
        forall|t: int|
            start <= t < p.seq / 16 ==> #[trigger] acc(t + 1) == (m.mma)(
                left(t),
                right(t),
                acc(t),
            ),
    ensures
        out[(bh * p.seq + row) * 64 + col] == acc(p.seq / 16)[(row % 16) * 16 + col % 16],
        p.dv_value(m, bh, row, col) == acc(p.seq / 16)[(row % 16) * 16 + col % 16],
{
    let (kr, h) = ((row / 16) * 16, col / 16);
    let (a, b) = (p.pt_tiles(m, bh, kr), p.do_half(m, bh));
    let blocks = p.seq / 64;
    assert(p.seq == blocks * 64 && p.seq / 16 == blocks * 4);
    let n = (p.seq / 16 - start) as nat;
    assert(start + n == p.seq / 16);
    assert(kr % 16 == 0);
    assert forall|t: int| start <= t < start + n implies #[trigger] sweep_operands(
        left,
        right,
        a,
        b,
        h,
        t,
    ) by {
        assert(left(t).len() == 256 && right(t).len() == 256);
        assert forall|i: int| 0 <= i < 256 implies #[trigger] left(t)[i] == a(t * 16)[i] by {
            lemma_tile_elements(m, p, bh, t * 16, kr, t * 16 + i % 16, kr + i / 16);
            assert((i / 16) * 16 + i % 16 == i);
        }
        assert forall|i: int| 0 <= i < 256 implies #[trigger] right(t)[i] == tile(
            b,
            t * 16,
            h * 16,
        )[i] by {
            lemma_place(bh, p.seq, t * 16 + i / 16, h * 16 + i % 16);
        }
        assert(left(t) =~= a(t * 16));
        assert(right(t) =~= tile(b, t * 16, h * 16));
    }
    lemma_accumulate_chain(m, a, b, h, start, n, left, right, acc);
    lemma_place(bh, p.seq, row, col);
    assert(p.first_q_tile(row) == start && p.q_tiles(row) == n);
    assert(out[element(bh, p.seq, row, col)] == p.dv_value(m, bh, row, col));
}

/// Where tile products are exact, what is written of the query gradient is the
/// sum over the keys that the query sees of the rounded score gradients times
/// the keys.
pub proof fn dq_is_a_sum_over_visible_pairs<Q, D>(
    m: Model<Q, D>,
    e: Reading,
    p: Problem<Q, D>,
    heads: int,
    out: Seq<u32>,
    bh: int,
    q: int,
    col: int,
)
    requires
        p.dq_written(m, heads, out),
        exact(m, e),
        masks(m, e),
        dq_reads(m, e, p, bh, q, col),
        p.seq % 64 == 0,
        0 <= bh < heads,
        0 <= q < p.seq,
        0 <= col < 64,
    ensures
        (e.full)(out[(bh * p.seq + q) * 64 + col]) == sum(
            |key: int|
                if !p.causal || key <= q {
                    (e.half)((m.narrow)(
                        (m.times)(
                            (m.times)(
                                (m.exp)(
                                    (m.minus)(
                                        (m.times)(p.s_at(m, bh, q, key), p.scale),
                                        p.lse[bh * p.seq + q],
                                    ),
                                ),
                                (m.minus)(p.dp_at(m, bh, q, key), p.d[bh * p.seq + q]),
                            ),
                            p.scale,
                        ),
                    )) * (e.half)((m.narrow_q)(p.k[(bh * p.seq + key) * 64 + col]))
                } else {
                    0
                },
            0,
            p.seq as nat,
        ),
{
    dq_is_product(m, e, p, bh, q, col);
    lemma_place(bh, p.seq, q, col);
    assert(out[element(bh, p.seq, q, col)] == p.dq_value(m, bh, q, col));
    let term = dq_term(m, e, p, bh, q, col);
    let plain = |key: int|
        if !p.causal || key <= q {
            (e.half)((m.narrow)(
                        (m.times)(
                            (m.times)(
                                (m.exp)(
                                    (m.minus)(
                                        (m.times)(p.s_at(m, bh, q, key), p.scale),
                                        p.lse[bh * p.seq + q],
                                    ),
                                ),
                                (m.minus)(p.dp_at(m, bh, q, key), p.d[bh * p.seq + q]),
                            ),
                            p.scale,
                        ),
                    )) * (e.half)((m.narrow_q)(p.k[(bh * p.seq + key) * 64 + col]))
        } else {
            0
        };
    assert forall|key: int| 0 <= key < p.seq implies #[trigger] term(0 + key) == plain(
        0 + key,
    ) by {
        lemma_place(bh, p.seq, key, col);
        ds_rounds_the_product(m, p, bh, q, key);
        if p.causal && q < key {
            assert(term(key) == 0);
        }
    }
    lemma_sum_agrees(term, 0, plain, 0, p.seq as nat);
}

/// Where tile products are exact, what is written of the key gradient is the sum
/// over the queries that see the key of the rounded score gradients times the
/// queries.
pub proof fn dk_is_a_sum_over_visible_pairs<Q, D>(
    m: Model<Q, D>,
    e: Reading,
    p: Problem<Q, D>,
    heads: int,
    out: Seq<u32>,
    bh: int,
    key: int,
    col: int,
)
    requires
        p.dk_written(m, heads, out),
        exact(m, e),
        masks(m, e),
        dk_reads(m, e, p, bh, key, col),
        p.seq % 64 == 0,
        0 <= bh < heads,
        0 <= key < p.seq,
        0 <= col < 64,
    ensures
        (e.full)(out[(bh * p.seq + key) * 64 + col]) == sum(
            |q: int|
                if !p.causal || key <= q {
                    (e.half)((m.narrow)(
                        (m.times)(
                            (m.times)(
                                (m.exp)(
                                    (m.minus)(
                                        (m.times)(p.st_at(m, bh, q, key), p.scale),
                                        p.lse[bh * p.seq + q],
                                    ),
                                ),
                                (m.minus)(p.dpt_at(m, bh, q, key), p.d[bh * p.seq + q]),
                            ),
                            p.scale,
                        ),
                    )) * (e.half)((m.narrow_q)(p.q[(bh * p.seq + q) * 64 + col]))
                } else {
                    0
                },
            0,
            p.seq as nat,
        ),
{
    dk_is_product(m, e, p, bh, key, col);
    lemma_place(bh, p.seq, key, col);
    assert(out[element(bh, p.seq, key, col)] == p.dk_value(m, bh, key, col));
    let term = dk_term(m, e, p, bh, key, col);
    let plain = |q: int|
        if !p.causal || key <= q {
            (e.half)((m.narrow)(
                        (m.times)(
                            (m.times)(
                                (m.exp)(
                                    (m.minus)(
                                        (m.times)(p.st_at(m, bh, q, key), p.scale),
                                        p.lse[bh * p.seq + q],
                                    ),
                                ),
                                (m.minus)(p.dpt_at(m, bh, q, key), p.d[bh * p.seq + q]),
                            ),
                            p.scale,
                        ),
                    )) * (e.half)((m.narrow_q)(p.q[(bh * p.seq + q) * 64 + col]))
        } else {
            0
        };
    assert forall|q: int| 0 <= q < p.seq implies #[trigger] term(0 + q) == plain(
        0 + q,
    ) by {
        lemma_place(bh, p.seq, q, col);
        dst_rounds_the_product(m, p, bh, q, key);
        if p.causal && q < key {
            assert(term(q) == 0);
        }
    }
    lemma_sum_agrees(term, 0, plain, 0, p.seq as nat);
}

/// Where tile products are exact, what is written of the value gradient is the
/// sum over the queries that see the key of the rounded weights times the output
/// gradients.
pub proof fn dv_is_a_sum_over_visible_pairs<Q, D>(
    m: Model<Q, D>,
    e: Reading,
    p: Problem<Q, D>,
    heads: int,
    out: Seq<u32>,
    bh: int,
    key: int,
    col: int,
)
    requires
        p.dv_written(m, heads, out),
        exact(m, e),
        masks(m, e),
        dv_reads(m, e, p, bh, key, col),
        p.seq % 64 == 0,
        0 <= bh < heads,
        0 <= key < p.seq,
        0 <= col < 64,
    ensures
        (e.full)(out[(bh * p.seq + key) * 64 + col]) == sum(
            |q: int|
                if !p.causal || key <= q {
                    (e.half)((m.narrow)(
                        (m.exp)(
                            (m.minus)(
                                (m.times)(p.st_at(m, bh, q, key), p.scale),
                                p.lse[bh * p.seq + q],
                            ),
                        ),
                    )) * (e.half)((m.narrow_do)(p.do_[(bh * p.seq + q) * 64 + col]))
                } else {
                    0
                },
            0,
            p.seq as nat,
        ),
{
    dv_is_product(m, e, p, bh, key, col);
    lemma_place(bh, p.seq, key, col);
    assert(out[element(bh, p.seq, key, col)] == p.dv_value(m, bh, key, col));
    let term = dv_term(m, e, p, bh, key, col);
    let plain = |q: int|
        if !p.causal || key <= q {
            (e.half)((m.narrow)(
                        (m.exp)(
                            (m.minus)(
                                (m.times)(p.st_at(m, bh, q, key), p.scale),
                                p.lse[bh * p.seq + q],
                            ),
                        ),
                    )) * (e.half)((m.narrow_do)(p.do_[(bh * p.seq + q) * 64 + col]))
        } else {
            0
        };
    assert forall|q: int| 0 <= q < p.seq implies #[trigger] term(0 + q) == plain(
        0 + q,
    ) by {
        lemma_place(bh, p.seq, q, col);
        pt_rounds_the_exponential(m, p, bh, q, key);
        if p.causal && q < key {
            assert(term(q) == 0);
        }
    }
    lemma_sum_agrees(term, 0, plain, 0, p.seq as nat);
}

/// A problem holds the tensors, the length, the scale and the mask that it is
/// made of.
pub proof fn a_problem_holds_its_inputs<Q, D>(
    q: Seq<Q>,
    k: Seq<Q>,
    v: Seq<Q>,
    do_: Seq<D>,
    lse: Seq<u32>,
    d: Seq<u32>,
    seq: u32,
    scale: u32,
    causal: bool,
)
    ensures
        problem(q, k, v, do_, lse, d, seq, scale, causal).q == q,
        problem(q, k, v, do_, lse, d, seq, scale, causal).k == k,
        problem(q, k, v, do_, lse, d, seq, scale, causal).v == v,
        problem(q, k, v, do_, lse, d, seq, scale, causal).do_ == do_,
        problem(q, k, v, do_, lse, d, seq, scale, causal).lse == lse,
        problem(q, k, v, do_, lse, d, seq, scale, causal).d == d,
        problem(q, k, v, do_, lse, d, seq, scale, causal).seq == seq,
        problem(q, k, v, do_, lse, d, seq, scale, causal).scale == scale,
        problem(q, k, v, do_, lse, d, seq, scale, causal).causal == causal,
{
}

} // verus!
